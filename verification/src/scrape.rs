use vstd::prelude::*;

verus! {

broadcast use vstd::string::group_string_axioms;

/// The page fetched when no address is given.
pub open spec fn default_url() -> Seq<char> {
    "https://www.rust-lang.org"@
}

/// The address to fetch: the first argument after the program's name, or
/// the default page.
pub fn target_url(args: &Vec<String>) -> (r: String)
    ensures
        args@.len() >= 2 ==> r == args@[1],
        args@.len() < 2 ==> r@ == default_url(),
{
    if args.len() >= 2 {
        args[1].clone()
    } else {
        "https://www.rust-lang.org".to_owned()
    }
}

/// The Markdown that `html2md` makes of an HTML page.
pub uninterp spec fn markdown_of(html: Seq<char>) -> Seq<char>;

/// Calls `html2md::parse_html`, which converts an HTML document to Markdown;
/// its result depends on the document alone.
#[verifier::external_body]
fn parse_html(html: &str) -> (r: String)
    ensures
        r@ == markdown_of(html@),
{
    html2md::parse_html(html)
}

/// Converts a fetched page to the Markdown that is saved.
pub fn html_to_markdown(body: &str) -> (r: String)
    ensures
        r@ == markdown_of(body@),
{
    parse_html(body)
}

} // verus!
