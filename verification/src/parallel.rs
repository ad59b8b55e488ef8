//! Merging many sketches on all cores.

use rayon::prelude::IntoParallelRefIterator;
use rayon::prelude::ParallelIterator;
use vstd::prelude::*;

use crate::error::MergeError;
use crate::fast::ExaLogLogFast;
use crate::joining;
use crate::laws;
use crate::packed::ExaLogLog;
use crate::state;
use crate::state::SketchView;
use crate::state::Variant;
use crate::storage::aligned_variant;
use crate::storage::packed_variant;

verus! {

/// A way to bracket a list of sketches into pairs.
pub enum Bracketing {
    /// One sketch.
    One,
    /// Two stretches of neighbours, each bracketed.
    Two {
        /// The first stretch.
        left: Box<Bracketing>,
        /// The second stretch.
        right: Box<Bracketing>,
    },
}

impl Bracketing {
    /// Number of sketches.
    pub open spec fn width(self) -> nat
        decreases self,
    {
        match self {
            Bracketing::One => 1,
            Bracketing::Two { left, right } => left.width() + right.width(),
        }
    }

    /// The sketches merged as bracketed.
    pub open spec fn merge(self, sketches: Seq<SketchView>, variant: Variant) -> SketchView
        decreases self,
    {
        match self {
            Bracketing::One => sketches[0],
            Bracketing::Two { left, right } => {
                let k = left.width() as int;
                left.merge(sketches.take(k), variant).merge(
                    right.merge(sketches.skip(k), variant),
                    variant,
                )
            },
        }
    }
}

/// Whether `out` comes out when a list of sketches is merged pairwise, neighbour
/// with neighbour, in some bracketing.
pub open spec fn reduction(sketches: Seq<SketchView>, out: SketchView, variant: Variant) -> bool {
    exists|brackets: Bracketing|
        brackets.width() == sketches.len() && out == #[trigger] brackets.merge(sketches, variant)
}

/// What each of a list of packed sketches stands for.
pub open spec fn packed_views(sketches: Seq<ExaLogLog>) -> Seq<SketchView> {
    sketches.map_values(|sketch: ExaLogLog| sketch@)
}

/// What each of a list of aligned sketches stands for.
pub open spec fn aligned_views(sketches: Seq<ExaLogLogFast>) -> Seq<SketchView> {
    sketches.map_values(|sketch: ExaLogLogFast| sketch@)
}

/// A list of sketches stands for as many views, each in its place.
pub proof fn views_are_in_place(packed: Seq<ExaLogLog>, aligned: Seq<ExaLogLogFast>, i: int)
    ensures
        packed_views(packed).len() == packed.len(),
        aligned_views(aligned).len() == aligned.len(),
        0 <= i < packed.len() ==> packed_views(packed)[i] == packed[i]@,
        0 <= i < aligned.len() ==> aligned_views(aligned)[i] == aligned[i]@,
{
}

/// Whether all sketches of a list have the same precision.
pub open spec fn same_precision(sketches: Seq<SketchView>) -> bool {
    forall|i: int, j: int|
        0 <= i < sketches.len() && 0 <= j < sketches.len() ==> (#[trigger] sketches[i]).p == (
        #[trigger] sketches[j]).p
}

/// A sketch that can be copied and merged on any core.
trait Mergeable: Sized + Send + Sync {
    /// What the sketch stands for.
    spec fn content(&self) -> SketchView;

    /// Parameters of the sketch.
    spec fn variant() -> Variant;

    fn copied(&self) -> (res: Self)
        ensures
            res.content() == self.content(),
    ;

    fn join(a: Self, b: Self) -> (out: Self)
        requires
            a.content().p == b.content().p,
        ensures
            out.content() == a.content().merge(b.content(), Self::variant()),
    ;
}

impl Mergeable for ExaLogLog {
    spec fn content(&self) -> SketchView {
        self@
    }

    spec fn variant() -> Variant {
        packed_variant()
    }

    fn copied(&self) -> (res: Self) {
        self.clone()
    }

    fn join(a: Self, b: Self) -> (out: Self) {
        let mut out = a;
        let _ = out.merge(&b);
        out
    }
}

impl Mergeable for ExaLogLogFast {
    spec fn content(&self) -> SketchView {
        self@
    }

    spec fn variant() -> Variant {
        aligned_variant()
    }

    fn copied(&self) -> (res: Self) {
        self.clone()
    }

    fn join(a: Self, b: Self) -> (out: Self) {
        let mut out = a;
        let _ = out.merge(&b);
        out
    }
}

/// What each of a list of sketches stands for.
spec fn contents<M: Mergeable>(sketches: Seq<M>) -> Seq<SketchView> {
    sketches.map_values(|sketch: M| sketch.content())
}

/// Reduces copies of the sketches with `ParallelIterator::reduce_with` of rayon. For
/// an empty list it returns nothing. Otherwise it splits the list into stretches of
/// neighbours and joins their results in the order of the list, so that the result
/// belongs to some bracketing; how the list is split is left open.
#[verifier::external_body]
fn reduce_parallel<M: Mergeable>(sketches: &[M]) -> (res: Option<M>)
    requires
        same_precision(contents(sketches@)),
    ensures
        res is None <==> sketches@.len() == 0,
        res matches Some(out) ==> reduction(contents(sketches@), out.content(), M::variant()),
{
    sketches.par_iter().map(|sketch| sketch.copied()).reduce_with(|a, b| M::join(a, b))
}

/// Merges many packed sketches of one precision on all cores; nothing comes out of
/// an empty list. [`reduction_matches_serial`] says that the bracketing makes no
/// difference.
pub fn merge_many_par(sketches: &[ExaLogLog]) -> (res: Option<ExaLogLog>)
    requires
        same_precision(packed_views(sketches@)),
    ensures
        res is None <==> sketches@.len() == 0,
        res matches Some(out) ==> reduction(packed_views(sketches@), out@, packed_variant()),
{
    assert(contents(sketches@) =~= packed_views(sketches@));
    reduce_parallel(sketches)
}

/// Merges many aligned sketches of one precision on all cores; nothing comes out of
/// an empty list. [`reduction_matches_serial`] says that the bracketing makes no
/// difference.
pub fn merge_many_par_fast(sketches: &[ExaLogLogFast]) -> (res: Option<ExaLogLogFast>)
    requires
        same_precision(aligned_views(sketches@)),
    ensures
        res is None <==> sketches@.len() == 0,
        res matches Some(out) ==> reduction(aligned_views(sketches@), out@, aligned_variant()),
{
    assert(contents(sketches@) =~= aligned_views(sketches@));
    reduce_parallel(sketches)
}

/// All hashes of a list of sets.
pub open spec fn all_hashes(hashes: Seq<Set<u64>>) -> Set<u64> {
    Set::new(|hash: u64| exists|i: int| 0 <= i < hashes.len() && #[trigger] hashes[i].contains(hash))
}

/// Whether sketches stand for sets of hashes and have the same precision.
pub open spec fn stand_for(
    sketches: Seq<SketchView>,
    hashes: Seq<Set<u64>>,
    variant: Variant,
) -> bool {
    &&& hashes.len() == sketches.len()
    &&& same_precision(sketches)
    &&& forall|i: int|
        0 <= i < sketches.len() ==> laws::represents(#[trigger] sketches[i], hashes[i], variant)
}

proof fn lemma_width_positive(brackets: Bracketing)
    ensures
        brackets.width() > 0,
    decreases brackets,
{
    if let Bracketing::Two { left, right } = brackets {
        lemma_width_positive(*left);
    }
}

proof fn lemma_all_hashes_split(hashes: Seq<Set<u64>>, k: int)
    requires
        0 < k < hashes.len(),
    ensures
        all_hashes(hashes) == all_hashes(hashes.take(k)).union(all_hashes(hashes.skip(k))),
{
    let (ha, hb) = (hashes.take(k), hashes.skip(k));
    assert forall|hash: u64| all_hashes(hashes).contains(hash) implies all_hashes(ha).contains(
        hash,
    ) || all_hashes(hb).contains(hash) by {
        let i = choose|i: int| 0 <= i < hashes.len() && #[trigger] hashes[i].contains(hash);
        if i < k {
            assert(ha[i].contains(hash));
        } else {
            assert(hb[i - k].contains(hash));
        }
    }
    assert forall|hash: u64|
        all_hashes(ha).contains(hash) || all_hashes(hb).contains(hash) implies all_hashes(
        hashes,
    ).contains(hash) by {
        if all_hashes(ha).contains(hash) {
            let i = choose|i: int| 0 <= i < ha.len() && #[trigger] ha[i].contains(hash);
            assert(hashes[i].contains(hash));
        } else {
            let i = choose|i: int| 0 <= i < hb.len() && #[trigger] hb[i].contains(hash);
            assert(hashes[i + k].contains(hash));
        }
    }
    assert(all_hashes(hashes) =~= all_hashes(ha).union(all_hashes(hb)));
}

/// A bracketed merge stands for all the hashes.
proof fn lemma_bracketed_joins_hashes(
    brackets: Bracketing,
    sketches: Seq<SketchView>,
    hashes: Seq<Set<u64>>,
    variant: Variant,
)
    requires
        laws::ordinary(variant),
        stand_for(sketches, hashes, variant),
        brackets.width() == sketches.len(),
    ensures
        laws::represents(brackets.merge(sketches, variant), all_hashes(hashes), variant),
        brackets.merge(sketches, variant).p == sketches[0].p,
    decreases brackets,
{
    match brackets {
        Bracketing::One => {
            assert(all_hashes(hashes) =~= hashes[0]) by {
                assert forall|hash: u64| hashes[0].contains(hash) == all_hashes(hashes).contains(
                    hash,
                ) by {}
            }
        },
        Bracketing::Two { left, right } => {
            lemma_width_positive(*left);
            lemma_width_positive(*right);
            let k = left.width() as int;
            let (sa, sb) = (sketches.take(k), sketches.skip(k));
            let (ha, hb) = (hashes.take(k), hashes.skip(k));
            assert(sa[0] == sketches[0] && sb[0] == sketches[k]);
            lemma_bracketed_joins_hashes(*left, sa, ha, variant);
            lemma_bracketed_joins_hashes(*right, sb, hb, variant);
            laws::merge_joins_hashes(
                left.merge(sa, variant),
                right.merge(sb, variant),
                all_hashes(ha),
                all_hashes(hb),
                variant,
            );
            lemma_all_hashes_split(hashes, k);
        },
    }
}

/// Whichever way a list of sketches is merged, the result stands for all their
/// hashes.
pub proof fn reduction_joins_hashes(
    sketches: Seq<SketchView>,
    hashes: Seq<Set<u64>>,
    out: SketchView,
    variant: Variant,
)
    requires
        laws::ordinary(variant),
        stand_for(sketches, hashes, variant),
        reduction(sketches, out, variant),
    ensures
        laws::represents(out, all_hashes(hashes), variant),
        out.p == sketches[0].p,
{
    let brackets = choose|brackets: Bracketing|
        brackets.width() == sketches.len() && out == #[trigger] brackets.merge(sketches, variant);
    lemma_bracketed_joins_hashes(brackets, sketches, hashes, variant);
}

/// Whether sketches are sound and have the precision `p`.
spec fn all_sound(sketches: Seq<SketchView>, p: u32, variant: Variant) -> bool {
    forall|i: int|
        0 <= i < sketches.len() ==> joining::sound(#[trigger] sketches[i], variant)
            && sketches[i].p == p
}

/// Merging a list can be interrupted anywhere.
proof fn lemma_merge_all_split(
    view: SketchView,
    first: Seq<SketchView>,
    second: Seq<SketchView>,
    variant: Variant,
)
    requires
        laws::ordinary(variant),
        joining::sound(view, variant),
        all_sound(first, view.p, variant),
    ensures
        state::merge_all(view, first, variant).1 is None,
        joining::sound(state::merge_all(view, first, variant).0, variant),
        state::merge_all(view, first, variant).0.p == view.p,
        state::merge_all(view, first + second, variant) == state::merge_all(
            state::merge_all(view, first, variant).0,
            second,
            variant,
        ),
    decreases first.len(),
{
    if first.len() == 0 {
        assert(first + second =~= second);
    } else {
        joining::merge_is_registerwise(view, first[0], variant);
        assert forall|i: int| 0 <= i < first.drop_first().len() implies joining::sound(
            #[trigger] first.drop_first()[i],
            variant,
        ) && first.drop_first()[i].p == view.p by {
            assert(first.drop_first()[i] == first[i + 1]);
        }
        lemma_merge_all_split(
            view.merge(first[0], variant),
            first.drop_first(),
            second,
            variant,
        );
        assert((first + second).drop_first() =~= first.drop_first() + second);
    }
}

/// Merging a bracketed merge into a sketch is merging the list one after the other.
proof fn lemma_merge_bracketed(
    view: SketchView,
    brackets: Bracketing,
    sketches: Seq<SketchView>,
    variant: Variant,
)
    requires
        laws::ordinary(variant),
        joining::sound(view, variant),
        all_sound(sketches, view.p, variant),
        brackets.width() == sketches.len(),
    ensures
        joining::sound(brackets.merge(sketches, variant), variant),
        brackets.merge(sketches, variant).p == view.p,
        state::merge_all(view, sketches, variant) == (
            view.merge(brackets.merge(sketches, variant), variant),
            None::<MergeError>,
        ),
    decreases brackets,
{
    match brackets {
        Bracketing::One => {
            let rest = sketches.drop_first();
            assert(rest.len() == 0);
            assert(state::merge_all(view.merge(sketches[0], variant), rest, variant) == (
                view.merge(sketches[0], variant),
                None::<MergeError>,
            ));
        },
        Bracketing::Two { left, right } => {
            lemma_width_positive(*left);
            lemma_width_positive(*right);
            let k = left.width() as int;
            let (sa, sb) = (sketches.take(k), sketches.skip(k));
            lemma_merge_bracketed(view, *left, sa, variant);
            let a = left.merge(sa, variant);
            joining::merge_is_registerwise(view, a, variant);
            lemma_merge_bracketed(view.merge(a, variant), *right, sb, variant);
            let b = right.merge(sb, variant);
            joining::merge_is_registerwise(a, b, variant);
            joining::merge_is_associative(view, a, b, variant);
            lemma_merge_all_split(view, sa, sb, variant);
            assert(sa + sb =~= sketches);
        },
    }
}

/// Whichever way a list of sketches is merged, the result is that of merging them
/// one after the other.
pub proof fn reduction_matches_serial(
    sketches: Seq<SketchView>,
    out: SketchView,
    variant: Variant,
)
    requires
        laws::ordinary(variant),
        same_precision(sketches),
        forall|i: int|
            0 <= i < sketches.len() ==> joining::sound(#[trigger] sketches[i], variant),
        reduction(sketches, out, variant),
    ensures
        state::merge_all(sketches[0], sketches.drop_first(), variant) == (out, None::<MergeError>),
{
    let brackets = choose|brackets: Bracketing|
        brackets.width() == sketches.len() && out == #[trigger] brackets.merge(sketches, variant);
    lemma_bracketed_is_serial(brackets, sketches, variant);
}

proof fn lemma_bracketed_is_serial(
    brackets: Bracketing,
    sketches: Seq<SketchView>,
    variant: Variant,
)
    requires
        laws::ordinary(variant),
        all_sound(sketches, sketches[0].p, variant),
        brackets.width() == sketches.len(),
    ensures
        state::merge_all(sketches[0], sketches.drop_first(), variant) == (
            brackets.merge(sketches, variant),
            None::<MergeError>,
        ),
    decreases brackets,
{
    match brackets {
        Bracketing::One => {
            assert(sketches.drop_first().len() == 0);
        },
        Bracketing::Two { left, right } => {
            lemma_width_positive(*left);
            lemma_width_positive(*right);
            let k = left.width() as int;
            let (sa, sb) = (sketches.take(k), sketches.skip(k));
            assert(sa[0] == sketches[0]);
            lemma_bracketed_is_serial(*left, sa, variant);
            let rest = sa.drop_first();
            assert forall|i: int| 0 <= i < rest.len() implies joining::sound(
                #[trigger] rest[i],
                variant,
            ) && rest[i].p == sketches[0].p by {
                assert(rest[i] == sketches[i + 1]);
            }
            lemma_merge_all_split(sketches[0], rest, sb, variant);
            assert(rest + sb =~= sketches.drop_first());
            lemma_merge_bracketed(left.merge(sa, variant), *right, sb, variant);
        },
    }
}

} // verus!
