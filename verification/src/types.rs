//! Monotonic identifiers: a counter held as a chain of 64-bit words that
//! grows by one word on overflow, threaded through call context rather
//! than kept as global state, and the identifier values it hands out.

use vstd::prelude::*;

use crate::num::dec_str;

verus! {

/// The counter chain after one step: the last word goes up by one, or a
/// fresh zero word is chained on when it is at its maximum.
pub open spec fn next_counter(s: Seq<u64>) -> Seq<u64>
    recommends
        s.len() > 0,
{
    if s.last() == u64::MAX {
        s.push(0)
    } else {
        s.update(s.len() - 1, (s.last() + 1) as u64)
    }
}

/// The state of an identifier generator: a non-empty chain of words.
pub struct IdCounter {
    /// The chain, least recently overflowed word first.
    pub digits: Vec<u64>,
}

impl IdCounter {
    /// Well-formed: the chain is never empty.
    pub open spec fn wf(&self) -> bool {
        self.digits@.len() > 0
    }

    /// A fresh generator, holding the single word zero.
    pub fn new() -> (r: IdCounter)
        ensures
            r.wf(),
            r.digits@ == seq![0u64],
    {
        let mut digits: Vec<u64> = Vec::new();
        digits.push(0);
        proof {
            assert(digits@ =~= seq![0u64]);
        }
        IdCounter { digits }
    }
}

/// An identifier: a snapshot of the counter chain that produced it.
pub struct ID {
    /// The chain of words, least recently overflowed first.
    pub id: Vec<u64>,
}

impl ID {
    /// Draws the next identifier: steps the counter by `next_counter` and
    /// snapshots it.
    pub fn new(counter: &mut IdCounter) -> (r: ID)
        requires
            old(counter).wf(),
        ensures
            final(counter).wf(),
            final(counter).digits@ == next_counter(old(counter).digits@),
            r.id@ == final(counter).digits@,
    {
        let n = counter.digits.len();
        let last = counter.digits[n - 1];
        if last == u64::MAX {
            counter.digits.push(0);
        } else {
            let ghost before = counter.digits@;
            match counter.digits.pop() {
                Some(w) => {
                    counter.digits.push(w + 1);
                    proof {
                        assert(counter.digits@ =~= before.update(
                            before.len() - 1,
                            (before.last() + 1) as u64,
                        ));
                    }
                },
                None => {
                    proof {
                        assert(false);
                    }
                },
            }
        }
        let mut id: Vec<u64> = Vec::new();
        let mut k: usize = 0;
        while k < counter.digits.len()
            invariant
                k <= counter.digits@.len(),
                id@ == counter.digits@.take(k as int),
                counter.digits@ == next_counter(old(counter).digits@),
                counter.digits@.len() > 0,
            decreases counter.digits@.len() - k,
        {
            id.push(counter.digits[k]);
            proof {
                assert(id@ =~= counter.digits@.take(k + 1));
            }
            k = k + 1;
        }
        proof {
            assert(counter.digits@.take(counter.digits@.len() as int) =~= counter.digits@);
        }
        ID { id }
    }

    /// The identifier's text: the words' decimal values joined with `-`.
    pub fn to_text(&self) -> (r: String)
        ensures
            r@ == id_text(self.id@),
    {
        let mut out: Vec<char> = Vec::new();
        let mut k: usize = 0;
        while k < self.id.len()
            invariant
                k <= self.id@.len(),
                out@ == id_text(self.id@.take(k as int)),
            decreases self.id@.len() - k,
        {
            if k > 0 {
                out.push('-');
            }
            let d = crate::num::render_u64(self.id[k]);
            crate::render::append_chars(&mut out, &d);
            proof {
                let t = self.id@.take(k + 1);
                assert(t.drop_last() =~= self.id@.take(k as int));
                assert(out@ =~= id_text(self.id@.take(k + 1)));
            }
            k = k + 1;
        }
        proof {
            assert(self.id@.take(self.id@.len() as int) =~= self.id@);
        }
        crate::strings::chars_to_string(&out)
    }
}

/// The text of a word chain: decimal values joined with `-`.
pub open spec fn id_text(s: Seq<u64>) -> Seq<char>
    decreases s.len(),
{
    if s.len() == 0 {
        Seq::empty()
    } else if s.len() == 1 {
        dec_str(s[0] as int)
    } else {
        id_text(s.drop_last()) + seq!['-'] + dec_str(s.last() as int)
    }
}

impl PartialEq for ID {
    /// Two identifiers are equal exactly when their chains are.
    fn eq(&self, other: &ID) -> (r: bool) {
        if self.id.len() != other.id.len() {
            return false;
        }
        let mut k: usize = 0;
        while k < self.id.len()
            invariant
                k <= self.id@.len(),
                self.id@.len() == other.id@.len(),
                forall|m: int| 0 <= m < k ==> self.id@[m] == other.id@[m],
            decreases self.id@.len() - k,
        {
            if self.id[k] != other.id[k] {
                return false;
            }
            k = k + 1;
        }
        proof {
            assert(self.id@ =~= other.id@);
        }
        true
    }
}

impl vstd::std_specs::cmp::PartialEqSpecImpl for ID {
    open spec fn obeys_eq_spec() -> bool {
        true
    }

    open spec fn eq_spec(&self, other: &ID) -> bool {
        self.id@ == other.id@
    }
}

impl Eq for ID {

}

} // verus!
