//! Merging the digital keys bound to one analog stick axis into one value.
use vstd::prelude::*;

verus! {

/// One of the four analog stick axes of the virtual controller.
#[derive(Clone, Copy, Debug, PartialEq, Eq, Structural)]
pub enum StickAxis {
    LeftX,
    LeftY,
    RightX,
    RightY,
}

/// A key that pushes `axis` to `magnitude` while held.
#[derive(Debug)]
pub struct AxisBinding {
    pub key: String,
    pub axis: StickAxis,
    pub magnitude: i16,
}

pub struct AxisModel {
    pub key: Seq<char>,
    pub axis: StickAxis,
    pub magnitude: int,
}

impl View for AxisBinding {
    type V = AxisModel;

    open spec fn view(&self) -> AxisModel {
        AxisModel { key: self.key@, axis: self.axis, magnitude: self.magnitude as int }
    }
}

pub open spec fn axes_view(v: Seq<AxisBinding>) -> Seq<AxisModel> {
    v.map_values(|b: AxisBinding| b@)
}

/// Added to a positive magnitude so that it outranks every negative one.
pub const MAX_POSITIVE_BIAS: u32 = 32768;

/// The rank of a magnitude: positive above negative, larger above smaller
/// within a sign, zero lowest.
pub open spec fn priority(m: int) -> int {
    if m > 0 {
        m + MAX_POSITIVE_BIAS
    } else if m < 0 {
        -m
    } else {
        0
    }
}

fn priority_of(m: i16) -> (r: u32)
    ensures
        r == priority(m as int),
{
    if m > 0 {
        m as u32 + MAX_POSITIVE_BIAS
    } else if m < 0 {
        (-(m as i32)) as u32
    } else {
        0
    }
}

pub open spec fn active(bs: Seq<AxisModel>, held: Seq<bool>, axis: StickAxis, i: int) -> bool {
    0 <= i < bs.len() && held[i] && bs[i].axis == axis
}

/// Binding `i` decides `axis`: it is held, none held on the axis ranks
/// above it, and none before it ranks as high.
pub open spec fn is_winner(bs: Seq<AxisModel>, held: Seq<bool>, axis: StickAxis, i: int) -> bool {
    &&& active(bs, held, axis, i)
    &&& forall|j: int| #[trigger] active(bs, held, axis, j)
        ==> priority(bs[j].magnitude) <= priority(bs[i].magnitude)
    &&& forall|j: int| 0 <= j < i && #[trigger] active(bs, held, axis, j)
        ==> priority(bs[j].magnitude) < priority(bs[i].magnitude)
}

/// The value of `axis`: the winner's magnitude, or 0 where nothing is held on it.
pub open spec fn axis_value(bs: Seq<AxisModel>, held: Seq<bool>, axis: StickAxis) -> int {
    if exists|i: int| is_winner(bs, held, axis, i) {
        bs[choose|i: int| is_winner(bs, held, axis, i)].magnitude
    } else {
        0
    }
}

pub proof fn lemma_winner_unique(bs: Seq<AxisModel>, held: Seq<bool>, axis: StickAxis, i: int, k: int)
    requires
        is_winner(bs, held, axis, i),
        is_winner(bs, held, axis, k),
    ensures
        i == k,
{
    if i < k {
        assert(active(bs, held, axis, i));
    } else if k < i {
        assert(active(bs, held, axis, k));
    }
}

/// Resolves the value of `axis` from the bindings and their held flags.
pub fn resolve_axis(bindings: &Vec<AxisBinding>, held: &Vec<bool>, axis: StickAxis) -> (r: i16)
    requires
        held@.len() == bindings@.len(),
    ensures
        r as int == axis_value(axes_view(bindings@), held@, axis),
{
    let ghost bv = axes_view(bindings@);
    let mut best: Option<usize> = None;
    let mut best_rank: u32 = 0;
    let mut i: usize = 0;
    while i < bindings.len()
        invariant
            i <= bindings@.len(),
            held@.len() == bindings@.len(),
            bv == axes_view(bindings@),
            match best {
                Some(b) => b < i && active(bv, held@, axis, b as int)
                    && best_rank == priority(bv[b as int].magnitude)
                    && (forall|j: int| 0 <= j < i && #[trigger] active(bv, held@, axis, j)
                        ==> priority(bv[j].magnitude) <= best_rank)
                    && (forall|j: int| 0 <= j < b && #[trigger] active(bv, held@, axis, j)
                        ==> priority(bv[j].magnitude) < best_rank),
                None => forall|j: int| 0 <= j < i ==> !#[trigger] active(bv, held@, axis, j),
            },
        decreases bindings@.len() - i,
    {
        assert(bv[i as int] == bindings@[i as int]@);
        if held[i] && bindings[i].axis == axis {
            let rank = priority_of(bindings[i].magnitude);
            match best {
                Some(_) => {
                    if rank > best_rank {
                        best = Some(i);
                        best_rank = rank;
                    }
                },
                None => {
                    best = Some(i);
                    best_rank = rank;
                },
            }
        }
        i += 1;
    }
    match best {
        Some(b) => {
            assert(is_winner(bv, held@, axis, b as int));
            proof {
                assert forall|k: int| is_winner(bv, held@, axis, k) implies k == b by {
                    lemma_winner_unique(bv, held@, axis, b as int, k);
                }
            }
            bindings[b].magnitude
        },
        None => {
            assert(!exists|k: int| is_winner(bv, held@, axis, k));
            0
        },
    }
}

} // verus!
