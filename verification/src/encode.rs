use vstd::prelude::*;
use vstd::string::StringSliceAdditionalSpecFns;

verus! {

/// Why a value could not be encoded.
#[derive(Debug)]
pub struct EncodeFailure {
    pub message: String,
}

/// A value that turns itself into bytes, or fails to.
pub trait Encode {
    /// What `encode` gives for this value: its bytes, or the error.
    spec fn encoding(&self) -> Result<Seq<u8>, EncodeFailure>;

    fn encode(&self) -> (r: Result<Vec<u8>, EncodeFailure>)
        ensures
            match r {
                Ok(v) => self.encoding() == Ok::<Seq<u8>, EncodeFailure>(v@),
                Err(e) => self.encoding() == Err::<Seq<u8>, EncodeFailure>(e),
            },
    ;
}

/// An integer encodes as eight zero bytes, whatever its value.
impl Encode for u64 {
    open spec fn encoding(&self) -> Result<Seq<u8>, EncodeFailure> {
        Ok(seq![0u8, 0u8, 0u8, 0u8, 0u8, 0u8, 0u8, 0u8])
    }

    fn encode(&self) -> (r: Result<Vec<u8>, EncodeFailure>) {
        let v: Vec<u8> = vec![0u8, 0u8, 0u8, 0u8, 0u8, 0u8, 0u8, 0u8];
        assert(v@ =~= seq![0u8, 0u8, 0u8, 0u8, 0u8, 0u8, 0u8, 0u8]);
        Ok(v)
    }
}

/// A string encodes as its UTF-8 bytes.
impl Encode for String {
    open spec fn encoding(&self) -> Result<Seq<u8>, EncodeFailure> {
        Ok(vstd::utf8::encode_utf8(self@))
    }

    fn encode(&self) -> (r: Result<Vec<u8>, EncodeFailure>) {
        let s: &str = self.as_str();
        let v = vstd::slice::slice_to_vec(s.as_bytes());
        Ok(v)
    }
}

/// An event made of an identifier and a payload, both encodable.
pub struct Event<Id, Data> {
    pub id: Id,
    pub data: Data,
}

impl<Id: Encode, Data: Encode> Event<Id, Data> {
    pub fn new(id: Id, data: Data) -> (r: Self)
        ensures
            r.id == id,
            r.data == data,
    {
        Self { id, data }
    }

    /// The encoding of the identifier followed by the encoding of the
    /// payload; the first error met, the identifier's first, where either
    /// fails.
    pub fn encode(&self) -> (r: Result<Vec<u8>, EncodeFailure>)
        ensures
            match (self.id.encoding(), self.data.encoding()) {
                (Ok(a), Ok(b)) => r matches Ok(v) && v@ == a + b,
                (Err(e), _) => r matches Err(f) && f == e,
                (Ok(_), Err(e)) => r matches Err(f) && f == e,
            },
    {
        let mut encoded = match self.id.encode() {
            Ok(v) => v,
            Err(e) => return Err(e),
        };
        let mut rest = match self.data.encode() {
            Ok(v) => v,
            Err(e) => return Err(e),
        };
        encoded.append(&mut rest);
        Ok(encoded)
    }
}

} // verus!
