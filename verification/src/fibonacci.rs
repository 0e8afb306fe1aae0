use vstd::prelude::*;

verus! {

/// The Fibonacci numbers, starting `fib(0) == 0`, `fib(1) == 1`.
pub open spec fn fib(n: nat) -> nat
    decreases n,
{
    if n == 0 {
        0
    } else if n == 1 {
        1
    } else {
        fib((n - 2) as nat) + fib((n - 1) as nat)
    }
}

/// A bounded producer of Fibonacci numbers: the `k`-th call of `next`
/// (counting from 1) yields `fib(k)`, until `max` numbers have been produced.
pub struct Fibonacci {
    a: u64,
    b: u64,
    current: usize,
    max: usize,
}

impl Fibonacci {
    /// How many numbers have been produced so far.
    pub closed spec fn produced(&self) -> nat {
        self.current as nat
    }

    /// How many numbers this producer yields in total.
    pub closed spec fn limit(&self) -> nat {
        self.max as nat
    }

    /// The internal state matches the numbers produced so far.
    pub closed spec fn wf(&self) -> bool {
        &&& self.current <= self.max
        &&& self.current == 0 ==> self.a == 0 && self.b == 0
        &&& self.current > 0 ==> self.a == fib(self.current as nat) && self.b == fib(
            self.current as nat + 1,
        )
    }

    pub fn new(max: usize) -> (r: Self)
        ensures
            r.wf(),
            r.produced() == 0,
            r.limit() == max,
    {
        Self { a: 0, b: 0, current: 0, max }
    }

    /// Yields the next Fibonacci number, or `None` once `max` numbers have
    /// been produced. The numbers go 1, 1, 2, 3, 5, ...: the `k`-th call
    /// yields `fib(k)`.
    ///
    /// Each call after the first also computes the number that follows the
    /// one it yields, so it must fit in a `u64`; for a producer made for at
    /// most 92 numbers it always does (`law_next_never_overflows`).
    pub fn next(&mut self) -> (r: Option<u64>)
        requires
            old(self).wf(),
            0 < old(self).produced() < old(self).limit() ==> fib(old(self).produced() + 2)
                <= u64::MAX,
        ensures
            next_step(*old(self), *final(self), r),
    {
        if self.current == self.max {
            return None;
        }
        if self.current == 0 {
            self.a = 1;
            self.b = 1;
            assert(fib(1) == 1 && fib(2) == 1) by {
                reveal_with_fuel(fib, 3);
            }
        } else {
            assert(fib(self.current as nat + 2) == fib(self.current as nat) + fib(
                self.current as nat + 1,
            ));
            let sum = self.a + self.b;
            self.a = self.b;
            self.b = sum;
        }
        self.current += 1;
        Some(self.a)
    }
}

/// One call of `next` took the producer from `before` to `after` and
/// returned `r`: the next number while fewer than the limit were produced,
/// `None` with nothing changed once the limit is reached.
pub open spec fn next_step(before: Fibonacci, after: Fibonacci, r: Option<u64>) -> bool {
    &&& after.wf()
    &&& after.limit() == before.limit()
    &&& before.produced() == before.limit() ==> r is None && after.produced()
        == before.produced()
    &&& before.produced() < before.limit() ==> r == Some(fib(before.produced() + 1) as u64)
        && after.produced() == before.produced() + 1
}

/// `fib` never decreases.
pub proof fn lemma_fib_monotone(i: nat, j: nat)
    requires
        i <= j,
    ensures
        fib(i) <= fib(j),
    decreases j - i,
{
    if j < 2 {
        reveal_with_fuel(fib, 2);
    } else if i == j {
    } else if i == j - 1 {
    } else {
        lemma_fib_monotone(i, (j - 1) as nat);
        lemma_fib_monotone(i, (j - 2) as nat);
    }
}

/// The 93rd Fibonacci number is the last that fits in a `u64`.
pub proof fn lemma_fib_93_fits()
    ensures
        fib(93) <= u64::MAX,
        fib(94) > u64::MAX,
{
    // Each value follows from the two before it.
    assert(fib(0) == 0 && fib(1) == 1) by {
        reveal_with_fuel(fib, 2);
    }
    assert(fib(2) == 1);
    assert(fib(3) == 2);
    assert(fib(4) == 3);
    assert(fib(5) == 5);
    assert(fib(6) == 8);
    assert(fib(7) == 13);
    assert(fib(8) == 21);
    assert(fib(9) == 34);
    assert(fib(10) == 55);
    assert(fib(11) == 89);
    assert(fib(12) == 144);
    assert(fib(13) == 233);
    assert(fib(14) == 377);
    assert(fib(15) == 610);
    assert(fib(16) == 987);
    assert(fib(17) == 1597);
    assert(fib(18) == 2584);
    assert(fib(19) == 4181);
    assert(fib(20) == 6765);
    assert(fib(21) == 10946);
    assert(fib(22) == 17711);
    assert(fib(23) == 28657);
    assert(fib(24) == 46368);
    assert(fib(25) == 75025);
    assert(fib(26) == 121393);
    assert(fib(27) == 196418);
    assert(fib(28) == 317811);
    assert(fib(29) == 514229);
    assert(fib(30) == 832040);
    assert(fib(31) == 1346269);
    assert(fib(32) == 2178309);
    assert(fib(33) == 3524578);
    assert(fib(34) == 5702887);
    assert(fib(35) == 9227465);
    assert(fib(36) == 14930352);
    assert(fib(37) == 24157817);
    assert(fib(38) == 39088169);
    assert(fib(39) == 63245986);
    assert(fib(40) == 102334155);
    assert(fib(41) == 165580141);
    assert(fib(42) == 267914296);
    assert(fib(43) == 433494437);
    assert(fib(44) == 701408733);
    assert(fib(45) == 1134903170);
    assert(fib(46) == 1836311903);
    assert(fib(47) == 2971215073);
    assert(fib(48) == 4807526976);
    assert(fib(49) == 7778742049);
    assert(fib(50) == 12586269025);
    assert(fib(51) == 20365011074);
    assert(fib(52) == 32951280099);
    assert(fib(53) == 53316291173);
    assert(fib(54) == 86267571272);
    assert(fib(55) == 139583862445);
    assert(fib(56) == 225851433717);
    assert(fib(57) == 365435296162);
    assert(fib(58) == 591286729879);
    assert(fib(59) == 956722026041);
    assert(fib(60) == 1548008755920);
    assert(fib(61) == 2504730781961);
    assert(fib(62) == 4052739537881);
    assert(fib(63) == 6557470319842);
    assert(fib(64) == 10610209857723);
    assert(fib(65) == 17167680177565);
    assert(fib(66) == 27777890035288);
    assert(fib(67) == 44945570212853);
    assert(fib(68) == 72723460248141);
    assert(fib(69) == 117669030460994);
    assert(fib(70) == 190392490709135);
    assert(fib(71) == 308061521170129);
    assert(fib(72) == 498454011879264);
    assert(fib(73) == 806515533049393);
    assert(fib(74) == 1304969544928657);
    assert(fib(75) == 2111485077978050);
    assert(fib(76) == 3416454622906707);
    assert(fib(77) == 5527939700884757);
    assert(fib(78) == 8944394323791464);
    assert(fib(79) == 14472334024676221);
    assert(fib(80) == 23416728348467685);
    assert(fib(81) == 37889062373143906);
    assert(fib(82) == 61305790721611591);
    assert(fib(83) == 99194853094755497);
    assert(fib(84) == 160500643816367088);
    assert(fib(85) == 259695496911122585);
    assert(fib(86) == 420196140727489673);
    assert(fib(87) == 679891637638612258);
    assert(fib(88) == 1100087778366101931);
    assert(fib(89) == 1779979416004714189);
    assert(fib(90) == 2880067194370816120);
    assert(fib(91) == 4660046610375530309);
    assert(fib(92) == 7540113804746346429);
    assert(fib(93) == 12200160415121876738);
    assert(fib(94) == 19740274219868223167);
}

/// A well-formed producer made for at most 92 numbers always meets what
/// `next` requires: no call of `next` on it overflows.
pub proof fn law_next_never_overflows(f: Fibonacci)
    requires
        f.wf(),
        f.limit() <= 92,
    ensures
        0 < f.produced() < f.limit() ==> fib(f.produced() + 2) <= u64::MAX,
{
    if 0 < f.produced() < f.limit() {
        lemma_fib_93_fits();
        lemma_fib_monotone(f.produced() + 2, 93);
    }
}

/// The state after `i` calls of `next` on a fresh producer for `max`
/// numbers: `min(i, max)` numbers produced.
proof fn lemma_state_after(
    max: nat,
    states: Seq<Fibonacci>,
    results: Seq<Option<u64>>,
    i: int,
)
    requires
        states.len() == results.len() + 1,
        states[0].wf(),
        states[0].produced() == 0,
        states[0].limit() == max,
        forall|k: int|
            0 <= k < results.len() ==> next_step(
                #[trigger] states[k],
                states[k + 1],
                results[k],
            ),
        0 <= i < states.len(),
    ensures
        states[i].wf(),
        states[i].limit() == max,
        states[i].produced() == if i < max {
            i
        } else {
            max as int
        },
    decreases i,
{
    if i > 0 {
        lemma_state_after(max, states, results, i - 1);
        assert(next_step(states[i - 1], states[i], results[i - 1]));
    }
}

/// A fresh producer for `max <= 92` numbers, asked again and again: call
/// number `i` (from 0) returns `fib(i + 1)` while `i < max`, and `None` from
/// then on, so exactly `max` numbers come out and once `None` is returned
/// every later call returns `None`. Here `states[0]` is what `new(max)`
/// returned and call `i` took `states[i]` to `states[i + 1]`, returning
/// `results[i]`.
pub proof fn law_next_sequence(max: usize, states: Seq<Fibonacci>, results: Seq<Option<u64>>)
    requires
        max <= 92,
        states.len() == results.len() + 1,
        states[0].wf(),
        states[0].produced() == 0,
        states[0].limit() == max,
        forall|k: int|
            0 <= k < results.len() ==> next_step(
                #[trigger] states[k],
                states[k + 1],
                results[k],
            ),
    ensures
        forall|i: int|
            0 <= i < results.len() ==> if i < max {
                #[trigger] results[i] matches Some(v) && v == fib((i + 1) as nat)
            } else {
                results[i] is None
            },
{
    assert forall|i: int| 0 <= i < results.len() implies if i < max {
        #[trigger] results[i] matches Some(v) && v == fib((i + 1) as nat)
    } else {
        results[i] is None
    } by {
        lemma_state_after(max as nat, states, results, i);
        assert(next_step(states[i], states[i + 1], results[i]));
        if i < max {
            lemma_fib_93_fits();
            lemma_fib_monotone((i + 1) as nat, 93);
        }
    }
}

} // verus!
