//! The registry of live chains.
//!
//! A chain is born whole, with all its links and joints, and dies whole. The
//! registry keeps the live chains in the order they were created, oldest
//! first, so that the oldest can be evicted on demand; a chain may carry a
//! countdown, and is removed by the tick on which the countdown runs out.
//! Links and joints are named by opaque engine handles. Each chain owns its
//! handles alone: no handle belongs to two live chains. A chain is known by
//! its root handle, that of its first link.
use vstd::prelude::*;

verus! {

/// The lifetime given to a chain when none is chosen: five seconds, in
/// microseconds.
pub const DEFAULT_LIFETIME_MICROS: u64 = 5_000_000;

/// A collision layer.
#[derive(Clone, Copy, Debug, PartialEq, Eq, Structural)]
pub enum Layer {
    ChainLink,
    StaticObstacle,
}

impl Default for Layer {
    fn default() -> (r: Self)
        ensures
            r == Layer::ChainLink,
    {
        Layer::ChainLink
    }
}

impl Layer {
    /// The layers that a body on this layer collides with: links collide with
    /// links and with obstacles, obstacles only with links.
    pub fn filters(self) -> (r: Vec<Layer>)
        ensures
            r@ == (match self {
                Layer::ChainLink => seq![Layer::ChainLink, Layer::StaticObstacle],
                Layer::StaticObstacle => seq![Layer::ChainLink],
            }),
    {
        match self {
            Layer::ChainLink => vec![Layer::ChainLink, Layer::StaticObstacle],
            Layer::StaticObstacle => vec![Layer::ChainLink],
        }
    }
}

/// Marks an engine body as link `link_index` of a chain.
#[derive(Clone, Copy, Debug, PartialEq, Eq, Structural)]
pub struct ChainLink {
    pub link_index: usize,
}

/// Marks an engine body as the root of a chain, its anchor-facing end.
#[derive(Clone, Copy, Debug, PartialEq, Eq, Structural)]
pub struct ChainRoot;

/// A countdown, in microseconds, after which a chain is removed.
#[derive(Clone, Copy, Debug, PartialEq, Eq, Structural)]
pub struct ChainLifetime {
    pub remaining: u64,
}

/// What is left of a countdown after `elapsed` more time: it stops at zero.
pub open spec fn count_down(remaining: u64, elapsed: u64) -> u64 {
    if remaining > elapsed {
        (remaining - elapsed) as u64
    } else {
        0
    }
}

impl Default for ChainLifetime {
    fn default() -> (r: Self)
        ensures
            r.remaining == DEFAULT_LIFETIME_MICROS,
    {
        ChainLifetime { remaining: DEFAULT_LIFETIME_MICROS }
    }
}

impl ChainLifetime {
    pub fn new(duration: u64) -> (r: Self)
        ensures
            r.remaining == duration,
    {
        ChainLifetime { remaining: duration }
    }

    /// Advances the countdown by `elapsed`.
    pub fn tick(&mut self, elapsed: u64)
        ensures
            final(self).remaining == count_down(old(self).remaining, elapsed),
    {
        self.remaining = self.remaining.saturating_sub(elapsed);
    }

    /// Whether the countdown has run out.
    pub fn finished(&self) -> (r: bool)
        ensures
            r == (self.remaining == 0),
    {
        self.remaining == 0
    }
}

/// A live chain: the handles of its links, in order from the root, the
/// handles of the joints between them, and its countdown, if it has one.
#[derive(Debug)]
pub struct Chain {
    pub links: Vec<u64>,
    pub joints: Vec<u64>,
    pub lifetime: Option<ChainLifetime>,
}

impl Chain {
    /// A whole chain: at least one link, and one joint fewer than links.
    pub open spec fn wf(self) -> bool {
        &&& self.links@.len() >= 1
        &&& self.joints@.len() + 1 == self.links@.len()
    }

    /// The handle of the first link, by which the chain is known.
    pub open spec fn root(self) -> u64 {
        self.links@[0]
    }

    /// Whether the chain's countdown has run out.
    pub open spec fn expired(self) -> bool {
        self.lifetime matches Some(l) && l.remaining == 0
    }

    /// The chain after `elapsed` more time: its countdown, if any, advanced.
    pub open spec fn ticked(self, elapsed: u64) -> Chain {
        Chain {
            links: self.links,
            joints: self.joints,
            lifetime: match self.lifetime {
                Some(l) => Some(ChainLifetime { remaining: count_down(l.remaining, elapsed) }),
                None => None,
            },
        }
    }

    /// Whether `handle` is one of the chain's links or joints.
    pub open spec fn owns(self, handle: u64) -> bool {
        self.links@.contains(handle) || self.joints@.contains(handle)
    }

    /// Whether `handle` is one of the chain's links or joints.
    pub fn holds(&self, handle: u64) -> (r: bool)
        ensures
            r == self.owns(handle),
    {
        let mut i: usize = 0;
        while i < self.links.len()
            invariant
                i <= self.links@.len(),
                forall|k: int| 0 <= k < i ==> self.links@[k] != handle,
            decreases self.links@.len() - i,
        {
            if self.links[i] == handle {
                assert(self.links@[i as int] == handle);
                return true;
            }
            i = i + 1;
        }
        let mut j: usize = 0;
        while j < self.joints.len()
            invariant
                j <= self.joints@.len(),
                forall|k: int| 0 <= k < j ==> self.joints@[k] != handle,
                !self.links@.contains(handle),
            decreases self.joints@.len() - j,
        {
            if self.joints[j] == handle {
                assert(self.joints@[j as int] == handle);
                return true;
            }
            j = j + 1;
        }
        false
    }

    /// Whether the two chains have a handle in common.
    pub fn overlaps(&self, other: &Chain) -> (r: bool)
        ensures
            r == !disjoint(*self, *other),
    {
        let mut i: usize = 0;
        while i < other.links.len()
            invariant
                i <= other.links@.len(),
                forall|k: int| 0 <= k < i ==> !self.owns(#[trigger] other.links@[k]),
            decreases other.links@.len() - i,
        {
            if self.holds(other.links[i]) {
                assert(other.owns(other.links@[i as int]));
                return true;
            }
            i = i + 1;
        }
        let mut j: usize = 0;
        while j < other.joints.len()
            invariant
                j <= other.joints@.len(),
                forall|k: int| 0 <= k < other.links@.len() ==> !self.owns(#[trigger] other.links@[k]),
                forall|k: int| 0 <= k < j ==> !self.owns(#[trigger] other.joints@[k]),
            decreases other.joints@.len() - j,
        {
            if self.holds(other.joints[j]) {
                assert(other.owns(other.joints@[j as int]));
                return true;
            }
            j = j + 1;
        }
        assert forall|h: u64| self.owns(h) implies !other.owns(h) by {
            if other.links@.contains(h) {
                let k = choose|k: int| 0 <= k < other.links@.len() && other.links@[k] == h;
                assert(!self.owns(other.links@[k]));
            }
            if other.joints@.contains(h) {
                let k = choose|k: int| 0 <= k < other.joints@.len() && other.joints@[k] == h;
                assert(!self.owns(other.joints@[k]));
            }
        }
        false
    }

    /// Whether this is a whole chain.
    pub fn is_whole(&self) -> (r: bool)
        ensures
            r == self.wf(),
    {
        self.links.len() >= 1 && self.joints.len() == self.links.len() - 1
    }
}

/// The two chains have no handle in common.
pub open spec fn disjoint(a: Chain, b: Chain) -> bool {
    forall|h: u64| a.owns(h) ==> !b.owns(h)
}

/// Some chain of `s` has a handle in common with `c`.
pub open spec fn shares_handle(s: Seq<Chain>, c: Chain) -> bool {
    exists|i: int| 0 <= i < s.len() && !disjoint(#[trigger] s[i], c)
}

/// Whether some chain of `s` has root `root`.
pub open spec fn has_root(s: Seq<Chain>, root: u64) -> bool {
    exists|i: int| 0 <= i < s.len() && #[trigger] s[i].root() == root
}

/// The position of the chain with root `root`.
pub open spec fn root_index(s: Seq<Chain>, root: u64) -> int {
    choose|i: int| 0 <= i < s.len() && #[trigger] s[i].root() == root
}

/// `s` without its chain with root `root`, or `s` itself if it has none.
pub open spec fn without_root(s: Seq<Chain>, root: u64) -> Seq<Chain> {
    if has_root(s, root) {
        s.remove(root_index(s, root))
    } else {
        s
    }
}

/// Every chain is whole, no two chains have a handle in common, and so no
/// two share a root.
pub open spec fn chains_wf(s: Seq<Chain>) -> bool {
    &&& forall|i: int| 0 <= i < s.len() ==> #[trigger] s[i].wf()
    &&& forall|i: int, j: int|
        0 <= i < s.len() && 0 <= j < s.len() && i != j ==> #[trigger] disjoint(s[i], s[j])
    &&& forall|i: int, j: int|
        0 <= i < s.len() && 0 <= j < s.len() && i != j ==> #[trigger] s[i].root() != #[trigger] s[j].root()
}

/// The chains of `s` that outlive `elapsed` more time, in order, each with
/// its countdown advanced.
pub open spec fn survivors(s: Seq<Chain>, elapsed: u64) -> Seq<Chain>
    decreases s.len(),
{
    if s.len() == 0 {
        Seq::empty()
    } else {
        let rest = survivors(s.drop_last(), elapsed);
        let c = s.last().ticked(elapsed);
        if c.expired() {
            rest
        } else {
            rest.push(c)
        }
    }
}

/// The chains of `s` whose countdown runs out within `elapsed` more time, in
/// order, each with its countdown advanced.
pub open spec fn expirations(s: Seq<Chain>, elapsed: u64) -> Seq<Chain>
    decreases s.len(),
{
    if s.len() == 0 {
        Seq::empty()
    } else {
        let rest = expirations(s.drop_last(), elapsed);
        let c = s.last().ticked(elapsed);
        if c.expired() {
            rest.push(c)
        } else {
            rest
        }
    }
}

/// The chain of `s` with root `root`, if there is one.
pub open spec fn chain_of(s: Seq<Chain>, root: u64) -> Option<Chain> {
    if has_root(s, root) {
        Some(s[root_index(s, root)])
    } else {
        None
    }
}

/// The registry after a tick of each of `deltas`, in order.
pub open spec fn tick_all(s: Seq<Chain>, deltas: Seq<u64>) -> Seq<Chain>
    decreases deltas.len(),
{
    if deltas.len() == 0 {
        s
    } else {
        survivors(tick_all(s, deltas.drop_last()), deltas.last())
    }
}

/// The sum of `deltas`.
pub open spec fn total(deltas: Seq<u64>) -> int
    decreases deltas.len(),
{
    if deltas.len() == 0 {
        0
    } else {
        total(deltas.drop_last()) + deltas.last()
    }
}

/// The registry after `k` evictions of the oldest chain.
pub open spec fn evict_oldest(s: Seq<Chain>, k: nat) -> Seq<Chain>
    decreases k,
{
    if k == 0 || s.len() == 0 {
        s
    } else {
        evict_oldest(s.drop_first(), (k - 1) as nat)
    }
}

/// How spawning treats the chains already there.
#[derive(Clone, Copy, Debug, PartialEq, Eq, Structural)]
pub enum SpawnMode {
    /// A new chain joins those already live.
    Append,
    /// A new chain replaces every chain already live.
    Replace,
}

/// Why a chain was not registered.
#[derive(Clone, Copy, Debug, PartialEq, Eq, Structural)]
pub enum RegistryError {
    /// The chain has no link, or its joints do not number one fewer.
    Malformed,
    /// A link or joint of the chain belongs to a live chain.
    SharedHandle,
}

/// The live chains, oldest first.
#[derive(Debug)]
pub struct ChainState {
    chains: Vec<Chain>,
    mode: SpawnMode,
}

impl View for ChainState {
    type V = Seq<Chain>;

    closed spec fn view(&self) -> Seq<Chain> {
        self.chains@
    }
}

impl Default for ChainState {
    fn default() -> (r: Self)
        ensures
            r@ == Seq::<Chain>::empty(),
            r.wf(),
            r.spawn_mode() == SpawnMode::Append,
    {
        ChainState::new(SpawnMode::Append)
    }
}

impl ChainState {
    pub open spec fn wf(&self) -> bool {
        chains_wf(self@)
    }

    pub closed spec fn spawn_mode(&self) -> SpawnMode {
        self.mode
    }

    /// An empty registry.
    pub fn new(mode: SpawnMode) -> (r: Self)
        ensures
            r@ == Seq::<Chain>::empty(),
            r.wf(),
            r.spawn_mode() == mode,
    {
        ChainState { chains: Vec::new(), mode }
    }

    pub fn mode(&self) -> (r: SpawnMode)
        ensures
            r == self.spawn_mode(),
    {
        self.mode
    }

    /// The number of live chains.
    pub fn len(&self) -> (r: usize)
        ensures
            r == self@.len(),
    {
        self.chains.len()
    }

    /// The live chains, oldest first.
    pub fn chains(&self) -> (r: &Vec<Chain>)
        ensures
            r@ == self@,
    {
        &self.chains
    }

    /// Whether a live chain has root `root`.
    pub fn contains_root(&self, root: u64) -> (r: bool)
        requires
            self.wf(),
        ensures
            r == has_root(self@, root),
    {
        match self.find_root(root) {
            Some(_) => true,
            None => false,
        }
    }

    /// The position of the live chain with root `root`, if there is one.
    fn find_root(&self, root: u64) -> (r: Option<usize>)
        requires
            self.wf(),
        ensures
            r is None <==> !has_root(self@, root),
            r matches Some(i) ==> i == root_index(self@, root) && i < self@.len()
                && self@[i as int].root() == root,
    {
        let mut i: usize = 0;
        while i < self.chains.len()
            invariant
                self.wf(),
                i <= self@.len(),
                forall|k: int| 0 <= k < i ==> #[trigger] self@[k].root() != root,
            decreases self@.len() - i,
        {
            assert(self@[i as int].wf());
            if self.chains[i].links[0] == root {
                assert(self@[i as int].root() == root);
                let ghost j = root_index(self@, root);
                assert(0 <= j < self@.len() && self@[j].root() == root);
                assert(j == i);
                return Some(i);
            }
            i = i + 1;
        }
        None
    }

    /// Whether a live chain has a handle in common with `chain`.
    pub fn shares_with(&self, chain: &Chain) -> (r: bool)
        ensures
            r == shares_handle(self@, *chain),
    {
        let mut i: usize = 0;
        while i < self.chains.len()
            invariant
                i <= self@.len(),
                forall|k: int| 0 <= k < i ==> disjoint(#[trigger] self@[k], *chain),
            decreases self@.len() - i,
        {
            if self.chains[i].overlaps(chain) {
                assert(!disjoint(self@[i as int], *chain));
                return true;
            }
            i = i + 1;
        }
        false
    }

    /// Registers a new chain as the youngest.
    ///
    /// Refuses a chain that is not whole, or that has a link or joint of a
    /// live chain, and then changes nothing.
    pub fn add_chain(&mut self, chain: Chain) -> (r: Result<(), RegistryError>)
        requires
            old(self).wf(),
        ensures
            final(self).wf(),
            final(self).spawn_mode() == old(self).spawn_mode(),
            r == Err::<(), RegistryError>(RegistryError::Malformed) <==> !chain.wf(),
            r == Err::<(), RegistryError>(RegistryError::SharedHandle) <==> chain.wf()
                && shares_handle(old(self)@, chain),
            r is Ok <==> chain.wf() && !shares_handle(old(self)@, chain),
            r is Ok ==> final(self)@ == old(self)@.push(chain),
            r is Err ==> final(self)@ == old(self)@,
    {
        if !chain.is_whole() {
            return Err(RegistryError::Malformed);
        }
        if self.shares_with(&chain) {
            return Err(RegistryError::SharedHandle);
        }
        let ghost before = self@;
        let ghost c = chain;
        self.chains.push(chain);
        proof {
            lemma_owns_root(c);
            assert forall|i: int, j: int|
                0 <= i < self@.len() && 0 <= j < self@.len() && i != j implies #[trigger] disjoint(
                self@[i],
                self@[j],
            ) by {
                if i < before.len() && j < before.len() {
                    assert(self@[i] == before[i] && self@[j] == before[j]);
                } else if i < before.len() {
                    assert(self@[i] == before[i] && self@[j] == c);
                    assert(disjoint(before[i], c));
                } else {
                    assert(self@[j] == before[j] && self@[i] == c);
                    assert(disjoint(before[j], c));
                    lemma_disjoint_symmetric(before[j], c);
                }
            }
            lemma_distinct_roots(self@);
        }
        Ok(())
    }

    /// Removes and returns the oldest chain, if there is one.
    pub fn remove_oldest(&mut self) -> (r: Option<Chain>)
        requires
            old(self).wf(),
        ensures
            final(self).wf(),
            final(self).spawn_mode() == old(self).spawn_mode(),
            old(self)@.len() == 0 ==> r is None && final(self)@ == old(self)@,
            old(self)@.len() > 0 ==> r == Some(old(self)@[0]) && final(self)@ == old(self)@.drop_first(),
    {
        if self.chains.len() == 0 {
            return None;
        }
        let c = self.chains.remove(0);
        assert(self@ =~= old(self)@.drop_first());
        proof {
            lemma_remove_keeps_wf(old(self)@, 0);
        }
        Some(c)
    }

    /// Removes and returns the chain with root `root`; if no live chain has
    /// that root, changes nothing and returns `None`.
    pub fn remove_by_root(&mut self, root: u64) -> (r: Option<Chain>)
        requires
            old(self).wf(),
        ensures
            final(self).wf(),
            final(self).spawn_mode() == old(self).spawn_mode(),
            final(self)@ == without_root(old(self)@, root),
            r is None <==> !has_root(old(self)@, root),
            r matches Some(c) ==> c == old(self)@[root_index(old(self)@, root)] && c.root() == root,
    {
        match self.find_root(root) {
            None => None,
            Some(i) => {
                let c = self.chains.remove(i);
                proof {
                    lemma_remove_keeps_wf(old(self)@, i as int);
                }
                Some(c)
            },
        }
    }

    /// Advances every countdown by `elapsed`, then removes and returns the
    /// chains whose countdown has run out, oldest first.
    pub fn tick(&mut self, elapsed: u64) -> (r: Vec<Chain>)
        requires
            old(self).wf(),
        ensures
            final(self).wf(),
            final(self).spawn_mode() == old(self).spawn_mode(),
            final(self)@ == survivors(old(self)@, elapsed),
            r@ == expirations(old(self)@, elapsed),
    {
        let mut pending: Vec<Chain> = Vec::new();
        std::mem::swap(&mut self.chains, &mut pending);
        let ghost orig = pending@;
        let mut expired: Vec<Chain> = Vec::new();
        let n: usize = pending.len();
        let mut i: usize = 0;
        while i < n
            invariant
                n == orig.len(),
                orig == old(self)@,
                i <= n,
                pending@ == orig.subrange(i as int, n as int),
                self@ == survivors(orig.subrange(0, i as int), elapsed),
                expired@ == expirations(orig.subrange(0, i as int), elapsed),
                self.mode == old(self).mode,
            decreases n - i,
        {
            let mut c = pending.remove(0);
            proof {
                assert(orig.subrange(0, i + 1).drop_last() =~= orig.subrange(0, i as int));
                assert(orig.subrange(0, i + 1).last() == orig[i as int]);
                assert(pending@ =~= orig.subrange(i + 1, n as int));
            }
            match c.lifetime {
                Some(l) => {
                    let mut l = l;
                    l.tick(elapsed);
                    c.lifetime = Some(l);
                },
                None => {},
            }
            let done = match c.lifetime {
                Some(l) => l.finished(),
                None => false,
            };
            if done {
                expired.push(c);
            } else {
                self.chains.push(c);
            }
            i = i + 1;
        }
        proof {
            assert(orig.subrange(0, n as int) =~= orig);
            lemma_survivors_wf(orig, elapsed);
        }
        expired
    }

    /// Removes and returns every chain.
    pub fn clear(&mut self) -> (r: Vec<Chain>)
        requires
            old(self).wf(),
        ensures
            final(self).wf(),
            final(self).spawn_mode() == old(self).spawn_mode(),
            final(self)@ == Seq::<Chain>::empty(),
            r@ == old(self)@,
    {
        let mut taken: Vec<Chain> = Vec::new();
        std::mem::swap(&mut self.chains, &mut taken);
        taken
    }

    /// Makes room for a new chain: in replace mode removes and returns every
    /// chain, in append mode removes none.
    pub fn begin_spawn(&mut self) -> (r: Vec<Chain>)
        requires
            old(self).wf(),
        ensures
            final(self).wf(),
            final(self).spawn_mode() == old(self).spawn_mode(),
            old(self).spawn_mode() == SpawnMode::Replace ==> final(self)@ == Seq::<Chain>::empty()
                && r@ == old(self)@,
            old(self).spawn_mode() == SpawnMode::Append ==> final(self)@ == old(self)@ && r@
                == Seq::<Chain>::empty(),
    {
        match self.mode {
            SpawnMode::Replace => self.clear(),
            SpawnMode::Append => Vec::new(),
        }
    }
}

/// Removing one chain keeps the others whole and their roots distinct.
proof fn lemma_remove_keeps_wf(s: Seq<Chain>, i: int)
    requires
        chains_wf(s),
        0 <= i < s.len(),
    ensures
        chains_wf(s.remove(i)),
{
    let t = s.remove(i);
    assert forall|a: int| 0 <= a < t.len() implies #[trigger] t[a] == s[if a < i { a } else { a + 1 }] by {}
    assert forall|a: int, b: int|
        0 <= a < t.len() && 0 <= b < t.len() && a != b implies #[trigger] t[a].root()
        != #[trigger] t[b].root() by {
        assert(t[a] == s[if a < i { a } else { a + 1 }]);
        assert(t[b] == s[if b < i { b } else { b + 1 }]);
    }
    assert forall|a: int| 0 <= a < t.len() implies #[trigger] t[a].wf() by {
        assert(t[a] == s[if a < i { a } else { a + 1 }]);
    }
    assert forall|a: int, b: int|
        0 <= a < t.len() && 0 <= b < t.len() && a != b implies #[trigger] disjoint(t[a], t[b]) by {
        assert(t[a] == s[if a < i { a } else { a + 1 }]);
        assert(t[b] == s[if b < i { b } else { b + 1 }]);
    }
}

/// Disjointness goes both ways.
proof fn lemma_disjoint_symmetric(a: Chain, b: Chain)
    requires
        disjoint(a, b),
    ensures
        disjoint(b, a),
{
}

/// A whole chain owns its root.
proof fn lemma_owns_root(c: Chain)
    requires
        c.wf(),
    ensures
        c.owns(c.root()),
{
    assert(c.links@[0] == c.root());
}

/// Whole chains with no handle in common have distinct roots.
proof fn lemma_distinct_roots(s: Seq<Chain>)
    requires
        forall|i: int| 0 <= i < s.len() ==> #[trigger] s[i].wf(),
        forall|i: int, j: int|
            0 <= i < s.len() && 0 <= j < s.len() && i != j ==> #[trigger] disjoint(s[i], s[j]),
    ensures
        chains_wf(s),
{
    assert forall|i: int, j: int|
        0 <= i < s.len() && 0 <= j < s.len() && i != j implies #[trigger] s[i].root()
        != #[trigger] s[j].root() by {
        lemma_owns_root(s[i]);
        lemma_owns_root(s[j]);
        assert(disjoint(s[i], s[j]));
    }
}

/// Dropping the youngest chain keeps the registry well formed.
proof fn lemma_drop_last_wf(s: Seq<Chain>)
    requires
        chains_wf(s),
        s.len() > 0,
    ensures
        chains_wf(s.drop_last()),
        forall|i: int| 0 <= i < s.len() - 1 ==> #[trigger] s.drop_last()[i] == s[i],
{
    let n = s.len() - 1;
    assert(s.drop_last() =~= s.remove(n));
    lemma_remove_keeps_wf(s, n);
}

/// In a registry whose roots are distinct, position `i` is the position of
/// its chain's root.
proof fn lemma_root_index(s: Seq<Chain>, i: int)
    requires
        chains_wf(s),
        0 <= i < s.len(),
    ensures
        has_root(s, s[i].root()),
        root_index(s, s[i].root()) == i,
{
    let r = s[i].root();
    assert(has_root(s, r));
    let j = root_index(s, r);
    assert(0 <= j < s.len() && s[j].root() == r);
}

/// Advancing a chain keeps its handles.
proof fn lemma_ticked_keeps_handles(c: Chain, elapsed: u64)
    ensures
        c.ticked(elapsed).links == c.links,
        c.ticked(elapsed).joints == c.joints,
        c.ticked(elapsed).wf() == c.wf(),
        c.ticked(elapsed).root() == c.root(),
{
}

/// Whether some chain of `s` has `handle` among its links or joints.
pub open spec fn owned(s: Seq<Chain>, handle: u64) -> bool {
    exists|w: int| 0 <= w < s.len() && #[trigger] s[w].owns(handle)
}

/// The survivors of a tick are whole and keep their handles apart, each
/// handle one of a chain that was there before.
proof fn lemma_survivors_wf(s: Seq<Chain>, elapsed: u64)
    requires
        chains_wf(s),
    ensures
        chains_wf(survivors(s, elapsed)),
        forall|k: int, h: u64|
            0 <= k < survivors(s, elapsed).len() && #[trigger] survivors(s, elapsed)[k].owns(h)
                ==> owned(s, h),
    decreases s.len(),
{
    if s.len() > 0 {
        let p = s.drop_last();
        let n = s.len() - 1;
        let last = s[n];
        assert(s.last() == last);
        lemma_drop_last_wf(s);
        lemma_survivors_wf(p, elapsed);
        let rest = survivors(p, elapsed);
        let c = last.ticked(elapsed);
        lemma_ticked_keeps_handles(last, elapsed);
        // the handles of `rest` come from `p`, hence not from the last chain
        assert forall|k: int, h: u64| 0 <= k < rest.len() && #[trigger] rest[k].owns(h) implies owned(
            s,
            h,
        ) && !c.owns(h) by {
            let w = choose|w: int| 0 <= w < p.len() && #[trigger] p[w].owns(h);
            assert(p[w] == s[w]);
            assert(disjoint(s[w], s[n]));
        }
        assert forall|k: int| 0 <= k < rest.len() implies #[trigger] disjoint(rest[k], c) by {
            assert forall|h: u64| rest[k].owns(h) implies !c.owns(h) by {}
        }
        if !c.expired() {
            let t = rest.push(c);
            assert(t == survivors(s, elapsed));
            assert forall|i: int| 0 <= i < t.len() implies #[trigger] t[i].wf() by {
                if i < rest.len() {
                    assert(t[i] == rest[i]);
                } else {
                    assert(t[i] == c);
                }
            }
            assert forall|i: int, j: int|
                0 <= i < t.len() && 0 <= j < t.len() && i != j implies #[trigger] disjoint(t[i], t[j])
                by {
                if i < rest.len() && j < rest.len() {
                    assert(t[i] == rest[i] && t[j] == rest[j]);
                } else if i < rest.len() {
                    assert(t[i] == rest[i] && t[j] == c);
                    assert(disjoint(rest[i], c));
                } else {
                    assert(t[j] == rest[j] && t[i] == c);
                    assert(disjoint(rest[j], c));
                    lemma_disjoint_symmetric(rest[j], c);
                }
            }
            lemma_distinct_roots(t);
            assert forall|k: int, h: u64| 0 <= k < t.len() && #[trigger] t[k].owns(h) implies owned(
                s,
                h,
            ) by {
                if k < rest.len() {
                    assert(t[k] == rest[k]);
                } else {
                    assert(t[k] == c);
                    assert(s[n].owns(h));
                }
            }
        }
    }
}

/// After a tick, the chain with root `root` is there exactly when it was
/// there before and its advanced countdown has not run out; it is then that
/// chain, advanced.
pub proof fn lemma_tick_keeps_chain(s: Seq<Chain>, elapsed: u64, root: u64)
    requires
        chains_wf(s),
    ensures
        chain_of(survivors(s, elapsed), root) == (match chain_of(s, root) {
            Some(c) => if c.ticked(elapsed).expired() {
                None
            } else {
                Some(c.ticked(elapsed))
            },
            None => None,
        }),
    decreases s.len(),
{
    if s.len() > 0 {
        let p = s.drop_last();
        let last = s.last();
        let n = s.len() - 1;
        assert(s[n] == last);
        assert forall|i: int| 0 <= i < p.len() implies #[trigger] p[i] == s[i] by {}
        lemma_drop_last_wf(s);
        lemma_tick_keeps_chain(p, elapsed, root);
        lemma_survivors_wf(p, elapsed);
        lemma_survivors_wf(s, elapsed);
        let rest = survivors(p, elapsed);
        let c = last.ticked(elapsed);
        lemma_ticked_keeps_handles(last, elapsed);
        if last.root() == root {
            lemma_root_index(s, n);
            assert(chain_of(s, root) == Some(last));
            assert(!has_root(p, root)) by {
                if has_root(p, root) {
                    let w = choose|w: int| 0 <= w < p.len() && #[trigger] p[w].root() == root;
                    assert(s[w] == p[w]);
                }
            }
            assert(chain_of(rest, root) is None);
            if !c.expired() {
                let t = rest.push(c);
                assert(t[rest.len() as int] == c);
                lemma_root_index(t, rest.len() as int);
            }
        } else {
            if has_root(s, root) {
                let i = root_index(s, root);
                assert(i != n);
                assert(s[i] == p[i]);
                lemma_root_index(p, i);
                lemma_root_index(s, i);
            } else {
                assert(!has_root(p, root)) by {
                    if has_root(p, root) {
                        let w = choose|w: int| 0 <= w < p.len() && #[trigger] p[w].root() == root;
                        assert(s[w] == p[w]);
                    }
                }
            }
            assert(chain_of(s, root) == chain_of(p, root));
            if !c.expired() {
                let t = rest.push(c);
                assert(t[rest.len() as int] == c);
                if has_root(rest, root) {
                    let i = root_index(rest, root);
                    assert(t[i] == rest[i]);
                    lemma_root_index(t, i);
                } else {
                    assert(!has_root(t, root)) by {
                        if has_root(t, root) {
                            let w = choose|w: int| 0 <= w < t.len() && #[trigger] t[w].root() == root;
                            if w < rest.len() {
                                assert(t[w] == rest[w]);
                            }
                        }
                    }
                }
                assert(chain_of(t, root) == chain_of(rest, root));
            }
        }
    }
}

/// A run of ticks keeps the registry whole with distinct roots; the chain
/// with root `root` and a countdown of `t > 0` is still there, with `t`
/// less the time elapsed, exactly while the ticks add up to less than `t`,
/// and is gone from the tick at which they reach `t` on.
pub proof fn lemma_expiry(s: Seq<Chain>, deltas: Seq<u64>, root: u64, t: u64)
    requires
        chains_wf(s),
        chain_of(s, root) matches Some(c) && c.lifetime == Some(ChainLifetime { remaining: t }),
        t > 0,
    ensures
        chains_wf(tick_all(s, deltas)),
        total(deltas) >= 0,
        has_root(tick_all(s, deltas), root) <==> total(deltas) < t,
        total(deltas) < t ==> (chain_of(tick_all(s, deltas), root) matches Some(c)
            && c.lifetime == Some(ChainLifetime { remaining: (t - total(deltas)) as u64 })),
    decreases deltas.len(),
{
    if deltas.len() > 0 {
        let p = deltas.drop_last();
        let d = deltas.last();
        lemma_expiry(s, p, root, t);
        let before = tick_all(s, p);
        lemma_survivors_wf(before, d);
        lemma_tick_keeps_chain(before, d, root);
        assert(tick_all(s, deltas) == survivors(before, d));
    }
}

/// Removing a chain by its root a second time finds nothing and changes
/// nothing; the registry stays whole with distinct roots.
pub proof fn lemma_teardown_idempotent(s: Seq<Chain>, root: u64)
    requires
        chains_wf(s),
    ensures
        chains_wf(without_root(s, root)),
        !has_root(without_root(s, root), root),
        without_root(without_root(s, root), root) == without_root(s, root),
{
    if has_root(s, root) {
        let i = root_index(s, root);
        lemma_root_index(s, i);
        lemma_remove_keeps_wf(s, i);
        let t = s.remove(i);
        assert(!has_root(t, root)) by {
            if has_root(t, root) {
                let w = choose|w: int| 0 <= w < t.len() && #[trigger] t[w].root() == root;
                if w < i {
                    assert(t[w] == s[w]);
                } else {
                    assert(t[w] == s[w + 1]);
                }
            }
        }
    }
}

/// A chain that has expired is gone: removing it by its root afterwards
/// finds nothing and changes nothing.
pub proof fn lemma_expired_then_removed(s: Seq<Chain>, elapsed: u64, root: u64)
    requires
        chains_wf(s),
        chain_of(s, root) matches Some(c) && c.ticked(elapsed).expired(),
    ensures
        !has_root(survivors(s, elapsed), root),
        without_root(survivors(s, elapsed), root) == survivors(s, elapsed),
{
    lemma_tick_keeps_chain(s, elapsed, root);
}

/// Evicting the oldest chain again and again hands the chains back in the
/// order they were created: after `k` evictions the registry holds the
/// chains from the `k`-th on, so the next eviction removes chain `k`, and
/// after as many evictions as there are chains it is empty.
pub proof fn lemma_eviction_order(s: Seq<Chain>, k: nat)
    requires
        k <= s.len(),
    ensures
        evict_oldest(s, k) == s.subrange(k as int, s.len() as int),
        k < s.len() ==> evict_oldest(s, k)[0] == s[k as int],
        evict_oldest(s, s.len()).len() == 0,
    decreases k,
{
    lemma_evict_all(s);
    if k > 0 {
        lemma_eviction_order(s.drop_first(), (k - 1) as nat);
        assert(s.drop_first().subrange(k - 1, s.len() - 1) =~= s.subrange(k as int, s.len() as int));
    } else {
        assert(s.subrange(0, s.len() as int) =~= s);
    }
}

proof fn lemma_evict_all(s: Seq<Chain>)
    ensures
        evict_oldest(s, s.len()).len() == 0,
    decreases s.len(),
{
    if s.len() > 0 {
        lemma_evict_all(s.drop_first());
    }
}

} // verus!
