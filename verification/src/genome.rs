//! Structural operations on genomes, seen as sequences of reactions: cut
//! points, one-point crossover of two parents and transposition of a reaction.
//!
//! Which cut or which reaction is chosen is decided by random draws made by
//! the caller; these functions take the drawn indices and do the rest.
use vstd::prelude::*;

verus! {

broadcast use vstd::seq_lib::to_multiset_remove, vstd::seq_lib::to_multiset_insert;

/// Cut point of a parent of `len` reactions for a raw draw `raw`: 0 for an
/// empty parent, else `raw` reduced modulo the length.
pub open spec fn spec_cut_point(raw: usize, len: usize) -> usize {
    if len == 0 {
        0
    } else {
        (raw % len) as usize
    }
}

/// The cut point of a parent with `len` reactions for the raw draw `raw`.
pub fn cut_point(raw: usize, len: usize) -> (c: usize)
    ensures
        c == spec_cut_point(raw, len),
        c <= len,
        len > 0 ==> c < len,
{
    if len == 0 {
        0
    } else {
        raw % len
    }
}

/// The reactions of parent `a` before `cut_a`, followed by those of parent
/// `b` from `cut_b` on.
pub open spec fn spliced<T>(a: Seq<T>, cut_a: int, b: Seq<T>, cut_b: int) -> Seq<T> {
    a.subrange(0, cut_a) + b.subrange(cut_b, b.len() as int)
}

/// Reactions of the child of a one-point crossover: the splice of the two
/// parents; where the splice is empty, the first reaction of `a`, else the
/// first of `b`, else nothing.
pub open spec fn crossover_spec<T>(a: Seq<T>, cut_a: int, b: Seq<T>, cut_b: int) -> Seq<T> {
    let s = spliced(a, cut_a, b, cut_b);
    if s.len() > 0 {
        s
    } else if a.len() > 0 {
        seq![a[0]]
    } else if b.len() > 0 {
        seq![b[0]]
    } else {
        Seq::empty()
    }
}

/// One-point crossover of two genomes' reactions: those of `a` before
/// `cut_a`, then those of `b` from `cut_b` on. Where that leaves nothing, the
/// child keeps the first reaction of `a`, or failing that of `b`; it is empty
/// only when both parents are.
pub fn crossover_reactions<T: Clone>(a: &Vec<T>, b: &Vec<T>, cut_a: usize, cut_b: usize) -> (child:
    Vec<T>)
    requires
        cut_a <= a@.len(),
        cut_b <= b@.len(),
    ensures
        child@.len() == crossover_spec(a@, cut_a as int, b@, cut_b as int).len(),
        forall|i: int|
            0 <= i < child@.len() ==> cloned(
                #[trigger] crossover_spec(a@, cut_a as int, b@, cut_b as int)[i],
                child@[i],
            ),
{
    let ghost s = spliced(a@, cut_a as int, b@, cut_b as int);
    let mut child: Vec<T> = Vec::new();
    let mut i: usize = 0;
    while i < cut_a
        invariant
            cut_a <= a@.len(),
            cut_b <= b@.len(),
            s == spliced(a@, cut_a as int, b@, cut_b as int),
            0 <= i <= cut_a,
            child@.len() == i,
            forall|j: int| 0 <= j < i ==> cloned(#[trigger] s[j], child@[j]),
        decreases cut_a - i,
    {
        child.push(a[i].clone());
        i = i + 1;
    }
    let mut k: usize = cut_b;
    while k < b.len()
        invariant
            cut_a <= a@.len(),
            cut_b <= b@.len(),
            s == spliced(a@, cut_a as int, b@, cut_b as int),
            cut_b <= k <= b@.len(),
            child@.len() == cut_a + (k - cut_b),
            forall|j: int| 0 <= j < child@.len() ==> cloned(#[trigger] s[j], child@[j]),
        decreases b@.len() - k,
    {
        child.push(b[k].clone());
        proof {
            assert(s[cut_a + (k - cut_b)] == b@[k as int]);
        }
        k = k + 1;
    }
    if child.len() == 0 {
        if a.len() > 0 {
            child.push(a[0].clone());
        } else if b.len() > 0 {
            child.push(b[0].clone());
        }
    }
    child
}

/// A crossover child has a reaction whenever one of its parents has, and
/// otherwise holds exactly the spliced reactions.
pub proof fn lemma_crossover_nonempty<T>(a: Seq<T>, cut_a: int, b: Seq<T>, cut_b: int)
    requires
        0 <= cut_a <= a.len(),
        0 <= cut_b <= b.len(),
    ensures
        a.len() > 0 || b.len() > 0 ==> crossover_spec(a, cut_a, b, cut_b).len() > 0,
        cut_a + (b.len() - cut_b) > 0 ==> crossover_spec(a, cut_a, b, cut_b).len() == cut_a + (
        b.len() - cut_b),
{
}

/// The sequence with the element at `from` moved to position `to` (or to the
/// end, where `to` lies past the shortened sequence).
pub open spec fn transposed<T>(s: Seq<T>, from: int, to: int) -> Seq<T> {
    if from == to {
        s
    } else {
        let r = s.remove(from);
        r.insert(if to < r.len() { to } else { r.len() as int }, s[from])
    }
}

/// Moves the reaction at `from` to position `to`.
pub fn transpose<T>(v: &mut Vec<T>, from: usize, to: usize)
    requires
        from < old(v)@.len(),
        to < old(v)@.len(),
    ensures
        final(v)@ == transposed(old(v)@, from as int, to as int),
{
    if from != to {
        let r = v.remove(from);
        let insert_at = if to < v.len() {
            to
        } else {
            v.len()
        };
        v.insert(insert_at, r);
    }
}

/// A transposition keeps every reaction, each as many times as before.
pub proof fn lemma_transpose_permutes<T>(s: Seq<T>, from: int, to: int)
    requires
        0 <= from < s.len(),
        0 <= to < s.len(),
    ensures
        transposed(s, from, to).to_multiset() == s.to_multiset(),
        transposed(s, from, to).len() == s.len(),
{
    broadcast use vstd::multiset::group_multiset_axioms;

    if from != to {
        let x = s[from];
        let r = s.remove(from);
        let at: int = if to < r.len() {
            to
        } else {
            r.len() as int
        };
        assert(s.to_multiset().count(x) > 0) by {
            vstd::seq_lib::to_multiset_contains(s, x);
            assert(s.contains(x)) by {
                assert(s[from] == x);
            }
        }
        assert(r.insert(at, x).to_multiset() == r.to_multiset().insert(x));
        assert(s.to_multiset().remove(x).insert(x) =~= s.to_multiset());
    }
}

// ── Insertion, deletion and duplication ─────────────────────────────────────
/// Whether a genome of `len` reactions may lose one: it keeps at least one.
pub open spec fn spec_deletion_allowed(len: int) -> bool {
    len > 1
}

/// Whether a genome of `len` reactions may lose one to a deletion.
pub fn deletion_allowed(len: usize) -> (b: bool)
    ensures
        b == spec_deletion_allowed(len as int),
{
    len > 1
}

/// Whether a genome of `len` reactions has one to duplicate.
pub fn duplication_allowed(len: usize) -> (b: bool)
    ensures
        b == (len > 0),
{
    len > 0
}

/// The genome after the insertion of a drawn reaction, if one was drawn.
pub open spec fn after_insertion<T>(s: Seq<T>, inserted: Option<T>) -> Seq<T> {
    match inserted {
        Some(r) => s.push(r),
        None => s,
    }
}

/// The genome after a deletion at the drawn position (reduced modulo the
/// length), where one fired and the genome keeps a reaction.
pub open spec fn after_deletion<T>(s: Seq<T>, deletion: Option<usize>) -> Seq<T> {
    match deletion {
        Some(d) => if spec_deletion_allowed(s.len() as int) {
            s.remove((d as int) % (s.len() as int))
        } else {
            s
        },
        None => s,
    }
}

/// The length-changing edits of a mutation, in order: the drawn reaction, if
/// any, is appended; then, where a deletion fired and the genome has more
/// than one reaction, the reaction at the drawn position goes; then, where a
/// duplication fired and the genome is not empty, a copy of the reaction at
/// its drawn position is appended. Positions are raw draws, reduced modulo
/// the length at that step.
pub fn resize_genome<T: Clone>(
    v: &mut Vec<T>,
    inserted: Option<T>,
    deletion: Option<usize>,
    duplication: Option<usize>,
)
    ensures
        ({
            let s2 = after_deletion(after_insertion(old(v)@, inserted), deletion);
            match duplication {
                Some(u) => if s2.len() > 0 {
                    &&& final(v)@.len() == s2.len() + 1
                    &&& final(v)@.subrange(0, s2.len() as int) == s2
                    &&& cloned(s2[(u as int) % (s2.len() as int)], final(v)@.last())
                } else {
                    final(v)@ == s2
                },
                None => final(v)@ == s2,
            }
        }),
        final(v)@.len() <= old(v)@.len() + 2,
        final(v)@.len() + 1 >= old(v)@.len(),
        old(v)@.len() > 0 ==> final(v)@.len() > 0,
{
    match inserted {
        Some(r) => {
            v.push(r);
        },
        None => {},
    }
    let ghost s1 = v@;
    match deletion {
        Some(d) => {
            if deletion_allowed(v.len()) {
                let at = d % v.len();
                v.remove(at);
            }
        },
        None => {},
    }
    let ghost s2 = v@;
    assert(s2 == after_deletion(s1, deletion));
    match duplication {
        Some(u) => {
            if duplication_allowed(v.len()) {
                let at = u % v.len();
                let copy = v[at].clone();
                v.push(copy);
                assert(v@.subrange(0, s2.len() as int) =~= s2);
            }
        },
        None => {},
    }
}

} // verus!
