//! Laying out a chain between an anchor and a target.
//!
//! A chain is a row of capsule-shaped links placed along the ray from the
//! anchor towards the target, one spacing apart, starting at the anchor. The
//! spacing is the capsule's full length (twice its half-length), so that
//! consecutive links meet end to end. Each pair of neighbouring links is bound
//! by one joint whose attachment points are the facing ends of the two
//! capsules.
//!
//! A link's place is given as its distance from the anchor along the chain's
//! direction; the direction is kept unnormalised, so that the layout stays
//! exact. When anchor and target coincide the direction is zero and the chain
//! degrades to a single link at the anchor, with no preferred orientation.
use vstd::prelude::*;
use vstd::set_lib::lemma_len_subset;
use crate::geometry::{Point, Vector, dist_sq, lemma_dist_sq_nonneg, floor_sqrt, lemma_floor_sqrt, distance_sq, integer_sqrt};

verus! {

/// The geometric parameters of a chain's links.
#[derive(Clone, Copy, Debug, PartialEq, Eq, Structural)]
pub struct ChainParams {
    /// Half of a link capsule's length along the chain.
    pub half_length: u32,
    /// The thickness of a link, across the chain.
    pub thickness: u32,
}

impl ChainParams {
    /// The centre-to-centre distance between neighbouring links.
    pub open spec fn spacing(self) -> nat {
        (2 * self.half_length) as nat
    }
}

/// One link of a chain under construction.
#[derive(Clone, Copy, Debug, PartialEq, Eq, Structural)]
pub struct ChainLinkSpec {
    /// Position within the chain; link 0 is the one at the anchor.
    pub index: u64,
    /// Distance of the link's centre from the anchor, along the direction.
    pub offset: u64,
    /// Whether this is the chain's root, the anchor-facing end.
    pub is_root: bool,
}

/// A joint between two neighbouring links, by their indices.
#[derive(Clone, Copy, Debug, PartialEq, Eq, Structural)]
pub struct JointSpec {
    /// The earlier link.
    pub link_a: u64,
    /// The later link.
    pub link_b: u64,
    /// Attachment point on the earlier link, in its own frame.
    pub anchor_a: Vector,
    /// Attachment point on the later link, in its own frame.
    pub anchor_b: Vector,
}

/// Everything needed to create one chain: where it starts, which way it
/// points, its links and its joints.
#[derive(Debug)]
pub struct ChainBlueprint {
    pub anchor: Point,
    /// `target - anchor`, not normalised; zero when they coincide.
    pub direction: Vector,
    pub spacing: u64,
    pub thickness: u32,
    pub links: Vec<ChainLinkSpec>,
    pub joints: Vec<JointSpec>,
}

/// Why a chain could not be laid out.
#[derive(Clone, Copy, Debug, PartialEq, Eq, Structural)]
pub enum ChainError {
    /// The links would have zero length.
    ZeroSpacing,
}

/// How many whole spacings fit between two points `sqrt(dsq)` apart:
/// `floor(d / s)`.
pub open spec fn span_count(dsq: nat, s: nat) -> nat {
    floor_sqrt(dsq) / s
}

/// The number of links of a chain: as many as whole spacings fit, and at
/// least one.
pub open spec fn link_count(dsq: nat, s: nat) -> nat {
    if span_count(dsq, s) == 0 {
        1
    } else {
        span_count(dsq, s)
    }
}

/// Link `i` sits `i` spacings from the anchor; only link 0 is the root.
pub open spec fn is_link_row(links: Seq<ChainLinkSpec>, s: int) -> bool {
    forall|i: int|
        0 <= i < links.len() ==> {
            &&& links[i].index == i
            &&& links[i].offset == i * s
            &&& links[i].is_root == (i == 0)
        }
}

/// Joint `j` binds link `j` to link `j + 1`, from the first capsule's forward
/// end to the second capsule's rear end.
pub open spec fn is_joint_row(joints: Seq<JointSpec>, half_length: int) -> bool {
    forall|j: int|
        0 <= j < joints.len() ==> {
            &&& joints[j].link_a == j
            &&& joints[j].link_b == j + 1
            &&& joints[j].anchor_a.x == half_length && joints[j].anchor_a.y == 0
            &&& joints[j].anchor_b.x == -half_length && joints[j].anchor_b.y == 0
        }
}

impl ChainBlueprint {
    /// A chain has at least one link and one joint fewer than links.
    pub open spec fn wf(self) -> bool {
        &&& self.links@.len() >= 1
        &&& self.joints@.len() == self.links@.len() - 1
    }

    /// This blueprint is the layout of a chain from `anchor` to `target`.
    pub open spec fn lays_out(self, anchor: Point, target: Point, params: ChainParams) -> bool {
        &&& self.anchor == anchor
        &&& self.direction.x == target.x - anchor.x
        &&& self.direction.y == target.y - anchor.y
        &&& self.spacing == params.spacing()
        &&& self.thickness == params.thickness
        &&& self.links@.len() == link_count(dist_sq(anchor, target) as nat, params.spacing())
        &&& self.joints@.len() == self.links@.len() - 1
        &&& is_link_row(self.links@, params.spacing() as int)
        &&& is_joint_row(self.joints@, params.half_length as int)
    }
}

/// `span_count` is `floor(d / s)` for `d = sqrt(dsq)`: that many spacings fit
/// within the distance and one more does not; `link_count` is the larger of
/// it and 1.
pub proof fn lemma_link_count(dsq: nat, s: nat)
    requires
        s > 0,
    ensures
        (span_count(dsq, s) * s) * (span_count(dsq, s) * s) <= dsq,
        dsq < ((span_count(dsq, s) + 1) * s) * ((span_count(dsq, s) + 1) * s),
        link_count(dsq, s) == (if span_count(dsq, s) >= 1 { span_count(dsq, s) } else { 1 }),
        link_count(dsq, s) >= 1,
{
    lemma_floor_sqrt(dsq);
    let l = floor_sqrt(dsq);
    let k = span_count(dsq, s);
    assert(k * s <= l && l < (k + 1) * s) by (nonlinear_arith)
        requires
            k == l / s,
            s > 0,
    ;
    assert((k * s) * (k * s) <= l * l) by (nonlinear_arith)
        requires
            0 <= k * s <= l,
    ;
    assert((l + 1) * (l + 1) <= ((k + 1) * s) * ((k + 1) * s)) by (nonlinear_arith)
        requires
            0 <= l + 1 <= (k + 1) * s,
    ;
}

/// Whether a joint binds link `k`.
pub open spec fn touches(joint: JointSpec, k: int) -> bool {
    joint.link_a == k || joint.link_b == k
}

/// The indices of the joints of a row that bind link `k`.
pub open spec fn joints_at(joints: Seq<JointSpec>, k: int) -> Set<int> {
    Set::new(|j: int| 0 <= j < joints.len() && touches(joints[j], k))
}

/// For a positive spacing, a chain has `max(1, floor(d / s))` links and one
/// joint fewer.
pub proof fn lemma_chain_counts(b: ChainBlueprint, anchor: Point, target: Point, params: ChainParams)
    requires
        b.lays_out(anchor, target, params),
        params.half_length > 0,
    ensures
        ({
            let dsq = dist_sq(anchor, target) as nat;
            let s = params.spacing();
            let k = span_count(dsq, s);
            &&& (k * s) * (k * s) <= dsq < ((k + 1) * s) * ((k + 1) * s)
            &&& b.links@.len() == (if k >= 1 { k } else { 1 })
            &&& b.joints@.len() == b.links@.len() - 1
        }),
{
    lemma_dist_sq_nonneg(anchor, target);
    lemma_link_count(dist_sq(anchor, target) as nat, params.spacing());
}

/// A chain of one link has that link at the anchor, as its root, and no
/// joints.
pub proof fn lemma_single_link(b: ChainBlueprint, anchor: Point, target: Point, params: ChainParams)
    requires
        b.lays_out(anchor, target, params),
        b.links@.len() == 1,
    ensures
        b.links@[0].offset == 0,
        b.links@[0].is_root,
        b.joints@.len() == 0,
{
}

/// In a chain of several links the first stands at the anchor and each next
/// one a spacing further along; the target lies at least one and less than two
/// spacings beyond the last link, and exactly one spacing beyond it when the
/// distance is a whole number of spacings.
pub proof fn lemma_chain_ends(b: ChainBlueprint, anchor: Point, target: Point, params: ChainParams)
    requires
        b.lays_out(anchor, target, params),
        params.half_length > 0,
        b.links@.len() > 1,
    ensures
        b.links@[0].offset == 0,
        forall|i: int|
            0 <= i < b.links@.len() - 1 ==> #[trigger] b.links@[i + 1].offset
                == b.links@[i].offset + params.spacing(),
        ({
            let dsq = dist_sq(anchor, target);
            let s = params.spacing() as int;
            let last = b.links@[b.links@.len() - 1].offset as int;
            &&& (last + s) * (last + s) <= dsq
            &&& dsq < (last + 2 * s) * (last + 2 * s)
            &&& (dsq == (b.links@.len() * s) * (b.links@.len() * s) ==> (last + s) * (last + s)
                == dsq)
        }),
{
    lemma_dist_sq_nonneg(anchor, target);
    let dsq = dist_sq(anchor, target) as nat;
    let s = params.spacing();
    lemma_link_count(dsq, s);
    let n = b.links@.len();
    let k = span_count(dsq, s);
    assert(n == k);
    let last = b.links@[n - 1].offset as int;
    assert(last == (n - 1) * s);
    assert(last + s == k * s && last + 2 * s == (k + 1) * s) by (nonlinear_arith)
        requires
            last == (n - 1) * s,
            n == k,
    ;
    assert((last + s) * (last + s) == (k * s) * (k * s));
    assert((last + 2 * s) * (last + 2 * s) == ((k + 1) * s) * ((k + 1) * s));
    assert((last + s) * (last + s) == (n * s) * (n * s));
    assert forall|i: int| 0 <= i < n - 1 implies #[trigger] b.links@[i + 1].offset
        == b.links@[i].offset + s by {
        assert((i + 1) * s == i * s + s) by (nonlinear_arith);
    }
}

/// Joint `j` binds link `j` and then link `j + 1`, both links of the chain,
/// never one link to itself; each link is bound by at most two joints, the
/// one before it and the one after it, so the joints form a simple path.
pub proof fn lemma_joints_form_path(b: ChainBlueprint, anchor: Point, target: Point, params: ChainParams)
    requires
        b.lays_out(anchor, target, params),
    ensures
        forall|j: int|
            0 <= j < b.joints@.len() ==> {
                &&& b.joints@[j].link_a == j
                &&& b.joints@[j].link_b == j + 1
                &&& b.joints@[j].link_a != b.joints@[j].link_b
                &&& b.joints@[j].link_b < b.links@.len()
            },
        forall|k: int, j: int|
            0 <= j < b.joints@.len() && #[trigger] touches(b.joints@[j], k) ==> j == k - 1 || j
                == k,
        forall|k: int| #[trigger] joints_at(b.joints@, k).len() <= 2,
{
    assert forall|k: int| #[trigger] joints_at(b.joints@, k).len() <= 2 by {
        let pair = set![k - 1, k];
        assert(joints_at(b.joints@, k).subset_of(pair));
        assert(pair.len() == 2) by {
            assert(set![k - 1].len() == 1);
            assert(!set![k - 1].contains(k));
        }
        lemma_len_subset(joints_at(b.joints@, k), pair);
    }
}

/// When anchor and target coincide the chain is a single root link at the
/// anchor, with a zero direction and no joints.
pub proof fn lemma_coincident_points(b: ChainBlueprint, anchor: Point, params: ChainParams)
    requires
        b.lays_out(anchor, anchor, params),
        params.half_length > 0,
    ensures
        b.links@.len() == 1,
        b.links@[0].offset == 0,
        b.links@[0].is_root,
        b.joints@.len() == 0,
        b.direction == (Vector { x: 0, y: 0 }),
{
    assert(dist_sq(anchor, anchor) == 0);
    assert(floor_sqrt(0) == 0);
    assert(span_count(0, params.spacing()) == 0);
}

/// Lays out a chain from `anchor` towards `target`.
///
/// The chain has `max(1, floor(d / s))` links, for the distance `d` between
/// the points and the spacing `s`, link `i` at `i * s` from the anchor, and a
/// joint between each pair of neighbours. Fails only when the spacing is zero.
pub fn build_chain(anchor: Point, target: Point, params: ChainParams) -> (r: Result<
    ChainBlueprint,
    ChainError,
>)
    ensures
        r is Err <==> params.half_length == 0,
        r matches Ok(b) ==> b.lays_out(anchor, target, params) && b.wf(),
{
    if params.half_length == 0 {
        return Err(ChainError::ZeroSpacing);
    }
    let half: u64 = params.half_length as u64;
    let spacing: u64 = 2 * half;
    let dsq: u128 = distance_sq(anchor, target);
    let length: u64 = integer_sqrt(dsq);
    let spans: u64 = length / spacing;
    let count: u64 = if spans == 0 {
        1
    } else {
        spans
    };
    proof {
        lemma_link_count(dsq as nat, spacing as nat);
        assert(spans == span_count(dsq as nat, spacing as nat));
        assert(count == link_count(dsq as nat, spacing as nat));
        assert((count - 1) * spacing <= length) by (nonlinear_arith)
            requires
                spans == length / spacing,
                spacing > 0,
                count == (if spans == 0 { 1 } else { spans }),
        ;
    }
    let mut links: Vec<ChainLinkSpec> = Vec::new();
    let mut joints: Vec<JointSpec> = Vec::new();
    let mut i: u64 = 0;
    let mut offset: u64 = 0;
    while i < count
        invariant
            count >= 1,
            (count - 1) * spacing <= length < 0x2_0000_0000,
            spacing == 2 * half,
            half == params.half_length,
            i <= count,
            i < count ==> offset == i * spacing,
            links@.len() == i,
            joints@.len() == (if i == 0 { 0 } else { i - 1 }),
            is_link_row(links@, spacing as int),
            is_joint_row(joints@, half as int),
        decreases count - i,
    {
        links.push(ChainLinkSpec { index: i, offset, is_root: i == 0 });
        if i > 0 {
            joints.push(
                JointSpec {
                    link_a: i - 1,
                    link_b: i,
                    anchor_a: Vector { x: half as i64, y: 0 },
                    anchor_b: Vector { x: -(half as i64), y: 0 },
                },
            );
        }
        i = i + 1;
        if i < count {
            proof {
                assert(i * spacing <= (count - 1) * spacing) by (nonlinear_arith)
                    requires
                        i <= count - 1,
                ;
                assert(i * spacing == offset + spacing) by (nonlinear_arith)
                    requires
                        offset == (i - 1) * spacing,
                ;
            }
            offset = offset + spacing;
        }
    }
    let direction = Vector {
        x: target.x as i64 - anchor.x as i64,
        y: target.y as i64 - anchor.y as i64,
    };
    Ok(ChainBlueprint { anchor, direction, spacing, thickness: params.thickness, links, joints })
}

/// Lays out a chain when both ends are known. With either end missing, or a
/// zero spacing, there is nothing to spawn.
pub fn plan_chain(anchor: Option<Point>, target: Option<Point>, params: ChainParams) -> (r: Option<
    ChainBlueprint,
>)
    ensures
        r is Some <==> anchor is Some && target is Some && params.half_length > 0,
        r matches Some(b) ==> (anchor matches Some(a) && target matches Some(t) && b.lays_out(
            a,
            t,
            params,
        ) && b.wf()),
{
    match (anchor, target) {
        (Some(a), Some(t)) => match build_chain(a, t, params) {
            Ok(b) => Some(b),
            Err(_) => None,
        },
        _ => None,
    }
}

} // verus!
