//! The live path of open element names, and the rendering of a path into a
//! single record key.
//!
//! The stack tracks nesting as the event stream is consumed; popping checks
//! that the closing name matches the top segment, which enforces that the
//! event stream is well-nested.  Rendering joins segment names with a
//! configurable separator, decoding each segment best-effort: invalid byte
//! sequences are replaced, never rejected.
use vstd::prelude::*;
use vstd::string::StringExecFns;

use crate::decode::lossy_of;
use crate::decode::utf8_lossy;

verus! {

/// The byte sequences of a sequence of segments.
pub open spec fn segs_view(s: Seq<Vec<u8>>) -> Seq<Seq<u8>> {
    s.map_values(|v: Vec<u8>| v@)
}

/// The key a path renders to: the best-effort decodings of its segments,
/// joined by the separator.
pub open spec fn key_of(segs: Seq<Seq<u8>>, sep: Seq<char>) -> Seq<char>
    decreases segs.len(),
{
    if segs.len() == 0 {
        Seq::empty()
    } else if segs.len() == 1 {
        lossy_of(segs[0])
    } else {
        lossy_of(segs[0]) + sep + key_of(segs.drop_first(), sep)
    }
}

/// Appending one segment to a non-empty path appends one separator and the
/// segment's decoding to the rendered key.
pub proof fn lemma_key_of_push(segs: Seq<Seq<u8>>, x: Seq<u8>, sep: Seq<char>)
    ensures
        key_of(segs.push(x), sep) == if segs.len() == 0 {
            lossy_of(x)
        } else {
            key_of(segs, sep) + sep + lossy_of(x)
        },
    decreases segs.len(),
{
    let p = segs.push(x);
    if segs.len() == 0 {
        assert(p.len() == 1);
        assert(p[0] == x);
    } else {
        assert(p[0] == segs[0]);
        assert(p.drop_first() =~= segs.drop_first().push(x));
        lemma_key_of_push(segs.drop_first(), x, sep);
        if segs.len() == 1 {
            assert(segs.drop_first().len() == 0);
            assert(key_of(p, sep) == lossy_of(segs[0]) + sep + lossy_of(x));
        } else {
            assert(lossy_of(segs[0]) + sep + (key_of(segs.drop_first(), sep) + sep + lossy_of(x))
                =~= (lossy_of(segs[0]) + sep + key_of(segs.drop_first(), sep)) + sep + lossy_of(
                x,
            ));
        }
    }
}

/// Joins the decodings of `segs[start..]` with `sep`.
pub fn join_from(segs: &[Vec<u8>], start: usize, sep: &str) -> (r: String)
    requires
        start <= segs@.len(),
    ensures
        r@ == key_of(segs_view(segs@).skip(start as int), sep@),
{
    let ghost all = segs_view(segs@);
    let mut r = String::new();
    let mut i: usize = start;
    proof {
        assert(all.subrange(start as int, start as int) =~= Seq::<Seq<u8>>::empty());
    }
    while i < segs.len()
        invariant
            start <= i <= segs@.len(),
            all == segs_view(segs@),
            all.len() == segs@.len(),
            r@ == key_of(all.subrange(start as int, i as int), sep@),
        decreases segs@.len() - i,
    {
        let ghost pre = all.subrange(start as int, i as int);
        proof {
            assert(all.subrange(start as int, i + 1) =~= pre.push(all[i as int]));
            lemma_key_of_push(pre, all[i as int], sep@);
        }
        if i > start {
            r.append(sep);
        }
        let piece = utf8_lossy(segs[i].as_slice());
        r.append(piece.as_str());
        proof {
            assert(all[i as int] == segs@[i as int]@);
            assert(pre.len() == i - start);
        }
        i = i + 1;
    }
    proof {
        assert(all.subrange(start as int, all.len() as int) =~= all.skip(start as int));
    }
    r
}

/// Renders a path to a single string key by joining its segments with the
/// separator, decoding each segment best-effort.
pub fn to_key(stack: &[Vec<u8>], separator: &str) -> (r: String)
    ensures
        r@ == key_of(segs_view(stack@), separator@),
{
    let r = join_from(stack, 0, separator);
    proof {
        assert(segs_view(stack@).skip(0) =~= segs_view(stack@));
    }
    r
}

/// Signalled by [`PathStack::pop`] when the stack is empty or its top
/// segment differs from the closing name: the input is not well-nested.
#[derive(Debug)]
pub struct MismatchError;

/// The chain of currently open element names, outermost first.
pub struct PathStack {
    segs: Vec<Vec<u8>>,
}

impl View for PathStack {
    type V = Seq<Seq<u8>>;

    closed spec fn view(&self) -> Seq<Seq<u8>> {
        segs_view(self.segs@)
    }
}

impl PathStack {
    /// An empty path.
    pub fn new() -> (s: Self)
        ensures
            s@ == Seq::<Seq<u8>>::empty(),
    {
        let s = PathStack { segs: Vec::new() };
        proof {
            assert(s@ =~= Seq::<Seq<u8>>::empty());
        }
        s
    }

    /// The number of open elements.
    pub fn depth(&self) -> (n: usize)
        ensures
            n == self@.len(),
    {
        self.segs.len()
    }

    /// True iff no element is open.
    pub fn is_empty(&self) -> (b: bool)
        ensures
            b == (self@.len() == 0),
    {
        self.segs.len() == 0
    }

    /// Read-only snapshot of the live path.
    pub fn current_path(&self) -> (r: &[Vec<u8>])
        ensures
            segs_view(r@) == self@,
    {
        self.segs.as_slice()
    }

    /// Appends a segment; any byte sequence is tolerated as a name.
    pub fn push(&mut self, name: Vec<u8>)
        ensures
            final(self)@ == old(self)@.push(name@),
    {
        let ghost before = self.segs@;
        self.segs.push(name);
        proof {
            assert(segs_view(self.segs@) =~= segs_view(before).push(self.segs@.last()@));
        }
    }

    /// Removes the top segment and compares it to `name`: the popped segment
    /// on match; `MismatchError`, with the stack unchanged, when the stack is
    /// empty or the top segment differs from `name`.
    pub fn pop(&mut self, name: &[u8]) -> (r: Result<Vec<u8>, MismatchError>)
        ensures
            r is Ok <==> (old(self)@.len() > 0 && old(self)@.last() == name@),
            r matches Ok(seg) ==> seg@ == old(self)@.last() && final(self)@ == old(
                self,
            )@.drop_last(),
            r is Err ==> final(self)@ == old(self)@,
    {
        let ghost before = self.segs@;
        if self.segs.len() == 0 {
            return Err(MismatchError);
        }
        let top = match self.segs.pop() {
            Some(t) => t,
            None => {
                return Err(MismatchError);
            },
        };
        proof {
            assert(top@ == old(self)@.last());
            assert(segs_view(self.segs@) =~= old(self)@.drop_last());
        }
        if crate::bytes_eq(top.as_slice(), name) {
            Ok(top)
        } else {
            let ghost mid = self.segs@;
            self.segs.push(top);
            proof {
                assert(segs_view(self.segs@) =~= segs_view(mid).push(top@));
                assert(segs_view(self.segs@) =~= old(self)@);
            }
            Err(MismatchError)
        }
    }

    /// Gives up the whole path, leaving the stack empty; used at
    /// end-of-stream to hand leftover segments to diagnostics.
    pub fn into_segments(self) -> (r: Vec<Vec<u8>>)
        ensures
            segs_view(r@) == self@,
    {
        self.segs
    }
}

} // verus!
