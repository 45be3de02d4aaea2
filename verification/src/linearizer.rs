//! Linearizer: orders committed blocks so that every block comes after the
//! committed blocks it includes.

use vstd::prelude::*;

use crate::block_store::{has_ref, views};
use crate::data::Data;
use crate::types::{contains_reference, ref_of, same_reference, BlockReference, BlockView, StatementBlock};

verus! {

/// Ordered sequence of committed blocks for execution.
#[derive(Debug)]
pub struct CommittedSubDag {
    pub blocks: Vec<Data<StatementBlock>>,
}

/// The references of the blocks of `o`, in order.
pub open spec fn emitted_refs(o: Seq<BlockView>) -> Seq<BlockReference> {
    o.map_values(|b: BlockView| ref_of(b))
}

/// Block `c` (a copy of the block named `x`) may follow the references `e`: every
/// reference it includes that names an input block is not `x` itself and is in `e`
/// (a reference included several times counts once).
pub open spec fn copy_ready(input: Seq<BlockView>, c: BlockView, x: BlockReference, e: Seq<BlockReference>) -> bool {
    forall|k: int|
        0 <= k < c.includes.len() && has_ref(input, #[trigger] c.includes[k]) ==> {
            &&& c.includes[k] != x
            &&& e.contains(c.includes[k])
        }
}

/// Every input block named `x` may follow the references `e`.
pub open spec fn key_ready(input: Seq<BlockView>, x: BlockReference, e: Seq<BlockReference>) -> bool {
    forall|i: int| 0 <= i < input.len() && ref_of(#[trigger] input[i]) == x ==> copy_ready(input, input[i], x, e)
}

/// The input block at position `i` may be output after the references `e`: it is
/// not output yet and may follow them.
pub open spec fn ready_at(input: Seq<BlockView>, e: Seq<BlockReference>, i: int) -> bool {
    !e.contains(ref_of(input[i])) && key_ready(input, ref_of(input[i]), e)
}

/// `b` is the input block at the first position that is ready after `e`.
pub open spec fn first_ready(input: Seq<BlockView>, e: Seq<BlockReference>, b: BlockView) -> bool {
    exists|i: int|
        0 <= i < input.len() && input[i] == b && #[trigger] ready_at(input, e, i) && forall|i2: int|
            0 <= i2 < i ==> !ready_at(input, e, i2)
}

/// `out` is the causal order of the committed blocks `input`: each output block is
/// the first input block (in input order) that is not output yet and comes after
/// every input block it includes, and the output stops when no input block is
/// ready. So each output block is an input block, no reference is output twice,
/// each comes after the committed blocks it includes, and every input block left
/// out could not follow the output.
pub open spec fn linearized(input: Seq<BlockView>, out: Seq<BlockView>) -> bool {
    &&& forall|j: int| 0 <= j < out.len() ==> first_ready(input, emitted_refs(out.take(j)), #[trigger] out[j])
    &&& forall|j: int| 0 <= j < out.len() ==> input.contains(#[trigger] out[j])
    &&& forall|j: int, k: int|
        0 <= j < out.len() && 0 <= k < out.len() && j != k ==> ref_of(out[j]) != ref_of(out[k])
    &&& forall|j: int|
        0 <= j < out.len() ==> key_ready(input, ref_of(#[trigger] out[j]), emitted_refs(out.take(j)))
    &&& forall|i: int|
        0 <= i < input.len() && !emitted_refs(out).contains(ref_of(#[trigger] input[i])) ==> !key_ready(
            input,
            ref_of(input[i]),
            emitted_refs(out),
        )
}

/// The committed blocks form a clean DAG: every committed block a block includes
/// is from a lower round.
pub open spec fn clean_batch(input: Seq<BlockView>) -> bool {
    forall|i: int, k: int|
        0 <= i < input.len() && 0 <= k < input[i].includes.len() && has_ref(input, #[trigger] input[i].includes[k])
            ==> input[i].includes[k].round < input[i].round
}

/// Every committed block up to round `r` is output.
proof fn lemma_emitted_up_to(input: Seq<BlockView>, out: Seq<BlockView>, r: nat)
    requires
        linearized(input, out),
        clean_batch(input),
    ensures
        forall|i: int| 0 <= i < input.len() && input[i].round <= r ==> emitted_refs(out).contains(ref_of(#[trigger] input[i])),
    decreases r,
{
    if r > 0 {
        lemma_emitted_up_to(input, out, (r - 1) as nat);
    }
    let e = emitted_refs(out);
    assert forall|i: int| 0 <= i < input.len() && input[i].round <= r implies e.contains(ref_of(#[trigger] input[i])) by {
        let x = ref_of(input[i]);
        if !e.contains(x) {
            assert forall|i2: int| 0 <= i2 < input.len() && ref_of(#[trigger] input[i2]) == x implies copy_ready(input, input[i2], x, e) by {
                let c = input[i2];
                assert(c.round == input[i].round);
                assert forall|k: int| 0 <= k < c.includes.len() && has_ref(input, #[trigger] c.includes[k]) implies {
                    &&& c.includes[k] != x
                    &&& e.contains(c.includes[k])
                } by {
                    let y = c.includes[k];
                    assert(input[i2].includes[k] == y);
                    assert(y.round < c.round);
                    let m = choose|m: int| 0 <= m < input.len() && ref_of(input[m]) == y;
                    assert(input[m].round == y.round);
                    assert(r > 0);
                    assert(input[m].round <= r - 1);
                    assert(e.contains(ref_of(input[m])));
                }
            }
            assert(key_ready(input, x, e));
            assert(false);
        }
    }
}

/// On a clean batch of committed blocks the linearization outputs every block:
/// one copy of each reference, each after the committed blocks it includes.
pub proof fn lemma_linearize_complete(input: Seq<BlockView>, out: Seq<BlockView>)
    requires
        linearized(input, out),
        clean_batch(input),
    ensures
        forall|i: int| 0 <= i < input.len() ==> emitted_refs(out).contains(ref_of(#[trigger] input[i])),
{
    assert forall|i: int| 0 <= i < input.len() implies emitted_refs(out).contains(ref_of(#[trigger] input[i])) by {
        lemma_emitted_up_to(input, out, input[i].round as nat);
    }
}

/// Two blocks that are each the first ready one after the same references are the same.
proof fn lemma_first_ready_unique(input: Seq<BlockView>, e: Seq<BlockReference>, b1: BlockView, b2: BlockView)
    requires
        first_ready(input, e, b1),
        first_ready(input, e, b2),
    ensures
        b1 == b2,
{
    let i1 = choose|i: int|
        0 <= i < input.len() && input[i] == b1 && #[trigger] ready_at(input, e, i) && forall|i2: int|
            0 <= i2 < i ==> !ready_at(input, e, i2);
    let i2 = choose|i: int|
        0 <= i < input.len() && input[i] == b2 && #[trigger] ready_at(input, e, i) && forall|i3: int|
            0 <= i3 < i ==> !ready_at(input, e, i3);
    if i1 < i2 {
        assert(!ready_at(input, e, i1));
    } else if i2 < i1 {
        assert(!ready_at(input, e, i2));
    }
}

/// Two linearizations of one input agree on their common prefix.
proof fn lemma_prefixes_agree(input: Seq<BlockView>, o1: Seq<BlockView>, o2: Seq<BlockView>, j: int)
    requires
        linearized(input, o1),
        linearized(input, o2),
        0 <= j <= o1.len(),
        j <= o2.len(),
    ensures
        o1.take(j) == o2.take(j),
    decreases j,
{
    if j > 0 {
        lemma_prefixes_agree(input, o1, o2, j - 1);
        let p = j - 1;
        assert(first_ready(input, emitted_refs(o1.take(p)), o1[p]));
        assert(first_ready(input, emitted_refs(o2.take(p)), o2[p]));
        lemma_first_ready_unique(input, emitted_refs(o1.take(p)), o1[p], o2[p]);
        assert(o1.take(j) =~= o1.take(p).push(o1[p]));
        assert(o2.take(j) =~= o2.take(p).push(o2[p]));
    } else {
        assert(o1.take(0) =~= o2.take(0));
    }
}

/// The linearization is a function of its input: two outputs that both order the
/// same committed blocks are equal.
pub proof fn lemma_linearize_unique(input: Seq<BlockView>, o1: Seq<BlockView>, o2: Seq<BlockView>)
    requires
        linearized(input, o1),
        linearized(input, o2),
    ensures
        o1 == o2,
{
    let m: int = if o1.len() <= o2.len() { o1.len() as int } else { o2.len() as int };
    lemma_prefixes_agree(input, o1, o2, m);
    if o1.len() < o2.len() {
        assert(o1.take(m) =~= o1);
        assert(first_ready(input, emitted_refs(o2.take(m)), o2[m]));
        let i = choose|i: int|
            0 <= i < input.len() && input[i] == o2[m] && #[trigger] ready_at(input, emitted_refs(o2.take(m)), i) && forall|i2: int|
                0 <= i2 < i ==> !ready_at(input, emitted_refs(o2.take(m)), i2);
        assert(ready_at(input, emitted_refs(o1), i));
        assert(false);
    } else if o2.len() < o1.len() {
        assert(o2.take(m) =~= o2);
        assert(first_ready(input, emitted_refs(o1.take(m)), o1[m]));
        let i = choose|i: int|
            0 <= i < input.len() && input[i] == o1[m] && #[trigger] ready_at(input, emitted_refs(o1.take(m)), i) && forall|i2: int|
                0 <= i2 < i ==> !ready_at(input, emitted_refs(o1.take(m)), i2);
        assert(ready_at(input, emitted_refs(o2), i));
        assert(false);
    } else {
        assert(o1.take(m) =~= o1);
        assert(o2.take(m) =~= o2);
    }
}

/// Number of positions below `m` whose block's reference is not in `e`.
spec fn pending(input: Seq<BlockView>, e: Seq<BlockReference>, m: int) -> nat
    decreases m,
{
    if m <= 0 {
        0
    } else {
        pending(input, e, m - 1) + if e.contains(ref_of(input[m - 1])) {
            0nat
        } else {
            1nat
        }
    }
}

/// Adding `x` (the reference of the pending block at `i0`) to `e` lowers the count.
proof fn lemma_pending_drops(input: Seq<BlockView>, e: Seq<BlockReference>, x: BlockReference, i0: int, m: int)
    requires
        0 <= i0 < input.len(),
        ref_of(input[i0]) == x,
        !e.contains(x),
        m <= input.len(),
    ensures
        pending(input, e.push(x), m) <= pending(input, e, m),
        m > i0 ==> pending(input, e.push(x), m) < pending(input, e, m),
    decreases m,
{
    if m > 0 {
        lemma_pending_drops(input, e, x, i0, m - 1);
        let y = ref_of(input[m - 1]);
        if e.contains(y) {
            let k = choose|k: int| 0 <= k < e.len() && e[k] == y;
            assert(e.push(x)[k] == y);
        }
        if m - 1 == i0 {
            assert(e.push(x)[e.len() as int] == x);
        }
    }
}

/// Whether some input block has reference `y`.
fn input_has(input: &Vec<Data<StatementBlock>>, y: &BlockReference) -> (r: bool)
    ensures
        r == has_ref(views(input@), *y),
{
    let mut i: usize = 0;
    while i < input.len()
        invariant
            i <= input@.len(),
            forall|j: int| 0 <= j < i ==> ref_of(#[trigger] views(input@)[j]) != *y,
        decreases input@.len() - i,
    {
        let r = input[i].inner().reference();
        if same_reference(&r, y) {
            assert(ref_of(views(input@)[i as int]) == *y);
            return true;
        }
        i = i + 1;
    }
    false
}

/// Whether block `c` (named `x`) may follow `emitted`.
fn copy_ready_exec(input: &Vec<Data<StatementBlock>>, c: &StatementBlock, x: &BlockReference, emitted: &Vec<BlockReference>) -> (r: bool)
    ensures
        r == copy_ready(views(input@), c@, *x, emitted@),
{
    let ghost cv = c@;
    let mut k: usize = 0;
    while k < c.includes.len()
        invariant
            k <= c.includes@.len(),
            cv == c@,
            forall|j: int| 0 <= j < k && has_ref(views(input@), #[trigger] cv.includes[j]) ==> {
                &&& cv.includes[j] != *x
                &&& emitted@.contains(cv.includes[j])
            },
        decreases c.includes@.len() - k,
    {
        let y = &c.includes[k];
        if input_has(input, y) {
            if same_reference(y, x) || !contains_reference(emitted, y) {
                assert(cv.includes[k as int] == *y);
                return false;
            }
        }
        k = k + 1;
    }
    true
}

/// Whether every input block named `x` may follow `emitted`.
fn key_ready_exec(input: &Vec<Data<StatementBlock>>, x: &BlockReference, emitted: &Vec<BlockReference>) -> (r: bool)
    ensures
        r == key_ready(views(input@), *x, emitted@),
{
    let ghost s = views(input@);
    let mut i: usize = 0;
    while i < input.len()
        invariant
            i <= input@.len(),
            s == views(input@),
            forall|j: int| 0 <= j < i && ref_of(#[trigger] s[j]) == *x ==> copy_ready(s, s[j], *x, emitted@),
        decreases input@.len() - i,
    {
        let b = input[i].inner();
        let r = b.reference();
        if same_reference(&r, x) {
            if !copy_ready_exec(input, b, x, emitted) {
                assert(ref_of(s[i as int]) == *x);
                return false;
            }
        }
        i = i + 1;
    }
    true
}

/// Orders committed blocks (for execution) so that each block follows the
/// committed blocks it includes.
pub struct Linearizer;

impl Linearizer {
    pub fn new() -> (r: Self) {
        Linearizer
    }

    /// Order the committed blocks: repeatedly emit the first input block whose
    /// reference is not emitted yet and all of whose included committed blocks
    /// are, until no further block can follow.
    pub fn linearize(&self, committed_leaders: Vec<Data<StatementBlock>>) -> (r: CommittedSubDag)
        ensures
            linearized(views(committed_leaders@), views(r.blocks@)),
    {
        let ghost s = views(committed_leaders@);
        let n = committed_leaders.len();
        let mut out: Vec<Data<StatementBlock>> = Vec::new();
        let mut out_refs: Vec<BlockReference> = Vec::new();
        assert(views(out@) =~= Seq::<BlockView>::empty());
        assert(emitted_refs(views(out@)) =~= out_refs@);
        loop
            invariant
                n == committed_leaders@.len(),
                s == views(committed_leaders@),
                out_refs@ == emitted_refs(views(out@)),
                forall|j: int| 0 <= j < out@.len() ==> exists|i: int| 0 <= i < s.len() && #[trigger] views(out@)[j] == s[i],
                forall|j: int, k: int|
                    0 <= j < out_refs@.len() && 0 <= k < out_refs@.len() && j != k ==> out_refs@[j] != out_refs@[k],
                forall|j: int|
                    0 <= j < out_refs@.len() ==> key_ready(s, #[trigger] out_refs@[j], out_refs@.take(j)),
                out@.len() == out_refs@.len(),
                forall|j: int| 0 <= j < out@.len() ==> first_ready(s, out_refs@.take(j), #[trigger] views(out@)[j]),
            ensures
                out@.len() == out_refs@.len(),
                forall|j: int| 0 <= j < out@.len() ==> first_ready(s, out_refs@.take(j), #[trigger] views(out@)[j]),
                out_refs@ == emitted_refs(views(out@)),
                forall|j: int| 0 <= j < out@.len() ==> exists|i: int| 0 <= i < s.len() && #[trigger] views(out@)[j] == s[i],
                forall|j: int, k: int|
                    0 <= j < out_refs@.len() && 0 <= k < out_refs@.len() && j != k ==> out_refs@[j] != out_refs@[k],
                forall|j: int|
                    0 <= j < out_refs@.len() ==> key_ready(s, #[trigger] out_refs@[j], out_refs@.take(j)),
                forall|i: int| 0 <= i < s.len() && !out_refs@.contains(ref_of(#[trigger] s[i])) ==> !key_ready(s, ref_of(s[i]), out_refs@),
            decreases pending(s, out_refs@, n as int),
        {
            let mut chosen: Option<usize> = None;
            let mut i: usize = 0;
            while i < n
                invariant
                    i <= n,
                    n == committed_leaders@.len(),
                    s == views(committed_leaders@),
                    chosen is None ==> forall|j: int| 0 <= j < i ==> !#[trigger] ready_at(s, out_refs@, j),
                    chosen matches Some(c) ==> c < n && ready_at(s, out_refs@, c as int) && forall|j: int| 0 <= j < c ==> !#[trigger] ready_at(s, out_refs@, j),
                decreases n - i,
            {
                if chosen.is_none() {
                    let x = committed_leaders[i].inner().reference();
                    if !contains_reference(&out_refs, &x) && key_ready_exec(&committed_leaders, &x, &out_refs) {
                        chosen = Some(i);
                    }
                    assert(chosen is None ==> !ready_at(s, out_refs@, i as int));
                }
                i = i + 1;
            }
            match chosen {
                None => {
                    assert forall|i: int| 0 <= i < s.len() && !out_refs@.contains(ref_of(#[trigger] s[i])) implies !key_ready(
                        s, ref_of(s[i]), out_refs@) by {
                        assert(!ready_at(s, out_refs@, i));
                    }
                    break;
                },
                Some(c) => {
                    let ghost e = out_refs@;
                    let ghost o = views(out@);
                    let x = committed_leaders[c].inner().reference();
                    proof {
                        lemma_pending_drops(s, e, x, c as int, n as int);
                    }
                    out.push(committed_leaders[c].clone());
                    out_refs.push(x);
                    assert(views(out@) =~= o.push(s[c as int]));
                    assert(emitted_refs(views(out@)) =~= e.push(x));
                    assert(out_refs@.take(e.len() as int) =~= e);
                    assert forall|j: int| 0 <= j < out_refs@.len() implies key_ready(s, #[trigger] out_refs@[j], out_refs@.take(j)) by {
                        if j < e.len() {
                            assert(out_refs@.take(j) =~= e.take(j));
                        }
                    }
                    assert forall|j: int| 0 <= j < out@.len() implies first_ready(s, out_refs@.take(j), #[trigger] views(out@)[j]) by {
                        if j < o.len() {
                            assert(out_refs@.take(j) =~= e.take(j));
                            assert(views(out@)[j] == o[j]);
                        } else {
                            assert(out_refs@.take(j) =~= e);
                            assert(views(out@)[j] == s[c as int]);
                            assert(ready_at(s, e, c as int));
                        }
                    }
                    assert forall|j: int| 0 <= j < out@.len() implies exists|i: int| 0 <= i < s.len() && #[trigger] views(out@)[j] == s[i] by {
                        if j < o.len() {
                            assert(views(out@)[j] == o[j]);
                        } else {
                            assert(views(out@)[j] == s[c as int]);
                        }
                    }
                },
            }
        }
        let ghost o = views(out@);
        proof {
            assert forall|j: int| 0 <= j < o.len() implies first_ready(s, emitted_refs(o.take(j)), #[trigger] o[j]) by {
                assert(emitted_refs(o.take(j)) =~= out_refs@.take(j));
            }
            assert forall|j: int| 0 <= j < o.len() implies key_ready(s, ref_of(#[trigger] o[j]), emitted_refs(o.take(j))) by {
                assert(emitted_refs(o.take(j)) =~= out_refs@.take(j));
                assert(out_refs@[j] == ref_of(o[j]));
            }
            assert forall|j: int, k: int|
                0 <= j < o.len() && 0 <= k < o.len() && j != k implies ref_of(o[j]) != ref_of(o[k]) by {
                assert(out_refs@[j] == ref_of(o[j]));
                assert(out_refs@[k] == ref_of(o[k]));
            }
            assert forall|j: int| 0 <= j < o.len() implies s.contains(#[trigger] o[j]) by {
                let i = choose|i: int| 0 <= i < s.len() && #[trigger] views(out@)[j] == s[i];
                assert(s[i] == o[j]);
            }
            assert forall|i: int| 0 <= i < s.len() && !emitted_refs(o).contains(ref_of(#[trigger] s[i])) implies !key_ready(
                s, ref_of(s[i]), emitted_refs(o)) by {
                assert(emitted_refs(o) == out_refs@);
            }
        }
        CommittedSubDag { blocks: out }
    }
}

impl Default for Linearizer {
    fn default() -> (r: Self) {
        Self::new()
    }
}

} // verus!
