use vstd::prelude::*;

verus! {

/// What is left of `ids` once every id in `dead` is taken out; order is kept.
pub open spec fn survivors(ids: Seq<u64>, dead: Seq<u64>) -> Seq<u64> {
    ids.filter(|x: u64| !dead.contains(x))
}

/// Why a subscription was not registered.
#[derive(Debug, Clone, Copy, PartialEq, Eq, Structural)]
pub enum SubscribeError {
    /// The acknowledgment could not be enqueued on the new connection.
    SubscriptionSetupFailed,
    /// Every subscriber id has been handed out.
    IdsExhausted,
}

proof fn lemma_survivors_no_duplicates(ids: Seq<u64>, dead: Seq<u64>)
    requires
        ids.no_duplicates(),
    ensures
        survivors(ids, dead).no_duplicates(),
    decreases ids.len(),
{
    if ids.len() > 0 {
        let rest = ids.drop_last();
        assert(rest.no_duplicates());
        lemma_survivors_no_duplicates(rest, dead);
        let x = ids.last();
        assert(rest.push(x) =~= ids);
        rest.lemma_filter_push(x, |y: u64| !dead.contains(y));
        if survivors(rest, dead).contains(x) {
            let p = |y: u64| !dead.contains(y);
            rest.lemma_filter_contains_rev(p, x);
            let k = choose|k: int| 0 <= k < rest.len() && rest[k] == x;
            assert(ids[k] == ids[ids.len() - 1]);
        }
    }
}

/// Every survivor was among the ids.
proof fn lemma_survivors_contains(ids: Seq<u64>, dead: Seq<u64>, x: u64)
    ensures
        survivors(ids, dead).contains(x) <==> ids.contains(x) && !dead.contains(x),
{
    let p = |y: u64| !dead.contains(y);
    if survivors(ids, dead).contains(x) {
        ids.lemma_filter_contains_rev(p, x);
    }
    if ids.contains(x) && !dead.contains(x) {
        let k = choose|k: int| 0 <= k < ids.len() && ids[k] == x;
        ids.lemma_filter_contains(p, k);
    }
}

proof fn lemma_push_contains(s: Seq<u64>, a: u64, x: u64)
    ensures
        s.push(a).contains(x) <==> s.contains(x) || x == a,
{
    if s.push(a).contains(x) && x != a {
        let k = choose|k: int| 0 <= k < s.push(a).len() && s.push(a)[k] == x;
        assert(s[k] == x);
    }
    if s.contains(x) {
        let k = choose|k: int| 0 <= k < s.len() && s[k] == x;
        assert(s.push(a)[k] == x);
    }
    assert(s.push(a)[s.len() as int] == a);
}

/// Whether `x` occurs in `v`.
fn contains_id(v: &Vec<u64>, x: u64) -> (r: bool)
    ensures
        r == v@.contains(x),
{
    let mut i: usize = 0;
    while i < v.len()
        invariant
            i <= v@.len(),
            forall|j: int| 0 <= j < i ==> v@[j] != x,
        decreases v@.len() - i,
    {
        if v[i] == x {
            return true;
        }
        i = i + 1;
    }
    false
}

/// The ids of `ids` that are not in `dead`, in their order.
fn survivors_of(ids: &Vec<u64>, dead: &Vec<u64>) -> (r: Vec<u64>)
    ensures
        r@ == survivors(ids@, dead@),
{
    let mut r: Vec<u64> = Vec::new();
    let mut i: usize = 0;
    while i < ids.len()
        invariant
            i <= ids@.len(),
            r@ == survivors(ids@.subrange(0, i as int), dead@),
        decreases ids@.len() - i,
    {
        let x = ids[i];
        proof {
            assert(ids@.subrange(0, i as int).push(x) =~= ids@.subrange(0, i + 1));
            ids@.subrange(0, i as int).lemma_filter_push(x, |y: u64| !dead@.contains(y));
        }
        if !contains_id(dead, x) {
            r.push(x);
        }
        i = i + 1;
    }
    assert(ids@.subrange(0, ids@.len() as int) =~= ids@);
    r
}

/// One channel: its name and the ids of its subscribers, in order of joining.
pub struct ChannelEntry {
    pub name: String,
    pub subscribers: Vec<u64>,
}

/// The registry of a hub: which subscriber ids listen on which channel.
///
/// Every subscriber gets an id of its own when it joins; ids are never
/// reused, so a dead subscriber is named by its id alone, whatever its channel.
/// A channel's entry is made when its first subscriber joins and dropped when
/// eviction leaves it empty.
pub struct BroadcastStore {
    entries: Vec<ChannelEntry>,
    next_id: u64,
}

impl BroadcastStore {
    /// Whether some entry is named `c`.
    pub closed spec fn has_entry(&self, c: Seq<char>) -> bool {
        exists|i: int| 0 <= i < self.entries@.len() && #[trigger] self.entries@[i].name@ == c
    }

    /// The subscribers of channel `c`, in order of joining; empty for a
    /// channel that nobody has joined.
    pub closed spec fn subscribers(&self, c: Seq<char>) -> Seq<u64> {
        if self.has_entry(c) {
            let i = choose|i: int| 0 <= i < self.entries@.len() && #[trigger] self.entries@[i].name@ == c;
            self.entries@[i].subscribers@
        } else {
            Seq::empty()
        }
    }

    /// The id that the next subscriber will get.
    pub closed spec fn next_id(&self) -> nat {
        self.next_id as nat
    }

    /// Channel names are distinct, every id is below `next_id`, and no id
    /// occurs twice in the whole registry.
    pub closed spec fn wf(&self) -> bool {
        &&& forall|i: int, j: int|
            0 <= i < j < self.entries@.len() ==> #[trigger] self.entries@[i].name@
                != #[trigger] self.entries@[j].name@
        &&& forall|i: int|
            0 <= i < self.entries@.len() ==> (#[trigger] self.entries@[i]).subscribers@.no_duplicates()
        &&& forall|i: int, x: u64|
            0 <= i < self.entries@.len() && (#[trigger] self.entries@[i].subscribers@.contains(x))
                ==> x < self.next_id
        &&& forall|i: int, j: int, x: u64|
            0 <= i < self.entries@.len() && 0 <= j < self.entries@.len() && i != j
                && #[trigger] self.entries@[i].subscribers@.contains(x)
                ==> !(#[trigger] self.entries@[j].subscribers@.contains(x))
    }

    proof fn lemma_subscribers_at(&self, i: int)
        requires
            self.wf(),
            0 <= i < self.entries@.len(),
        ensures
            self.has_entry(self.entries@[i].name@),
            self.subscribers(self.entries@[i].name@) == self.entries@[i].subscribers@,
    {
        let c = self.entries@[i].name@;
        assert(self.entries@[i].name@ == c);
        let j = choose|j: int| 0 <= j < self.entries@.len() && #[trigger] self.entries@[j].name@ == c;
        if i < j {
            assert(self.entries@[i].name@ != self.entries@[j].name@);
        } else if j < i {
            assert(self.entries@[j].name@ != self.entries@[i].name@);
        }
    }

    /// An empty registry.
    pub fn new() -> (r: BroadcastStore)
        ensures
            r.wf(),
            r.next_id() == 0,
            forall|c: Seq<char>| #[trigger] r.subscribers(c) == Seq::<u64>::empty(),
    {
        BroadcastStore { entries: Vec::new(), next_id: 0 }
    }

    /// The position of the entry named `c`.
    fn find(&self, c: &String) -> (r: Option<usize>)
        requires
            self.wf(),
        ensures
            match r {
                Some(i) => i < self.entries@.len() && self.entries@[i as int].name@ == c@,
                None => !self.has_entry(c@),
            },
    {
        let mut i: usize = 0;
        while i < self.entries.len()
            invariant
                i <= self.entries@.len(),
                forall|j: int| 0 <= j < i ==> #[trigger] self.entries@[j].name@ != c@,
            decreases self.entries@.len() - i,
        {
            if self.entries[i].name == *c {
                return Some(i);
            }
            i = i + 1;
        }
        None
    }

    /// The number of live subscribers of `channel`; 0 for an unknown channel.
    pub fn client_count(&self, channel: &str) -> (r: usize)
        requires
            self.wf(),
        ensures
            r == self.subscribers(channel@).len(),
    {
        let c = channel.to_owned();
        match self.find(&c) {
            Some(i) => {
                proof {
                    self.lemma_subscribers_at(i as int);
                }
                self.entries[i].subscribers.len()
            },
            None => 0,
        }
    }

    /// Registers a new subscriber of `channel`, once the acknowledgment has been
    /// enqueued on its connection (`acknowledged`). The new subscriber gets the
    /// next id and joins the end of the channel's list; no other channel
    /// changes. Without the acknowledgment nothing is registered.
    pub fn add_client(&mut self, channel: String, acknowledged: bool) -> (r: Result<
        u64,
        SubscribeError,
    >)
        requires
            old(self).wf(),
        ensures
            final(self).wf(),
            !acknowledged ==> r == Err::<u64, SubscribeError>(
                SubscribeError::SubscriptionSetupFailed,
            ),
            acknowledged && old(self).next_id() == u64::MAX ==> r == Err::<u64, SubscribeError>(
                SubscribeError::IdsExhausted,
            ),
            acknowledged && old(self).next_id() < u64::MAX ==> r == Ok::<u64, SubscribeError>(
                old(self).next_id() as u64,
            ),
            r is Ok ==> {
                &&& final(self).next_id() == old(self).next_id() + 1
                &&& final(self).subscribers(channel@) == old(self).subscribers(channel@).push(
                    old(self).next_id() as u64,
                )
                &&& forall|c: Seq<char>|
                    c != channel@ ==> #[trigger] final(self).subscribers(c) == old(
                        self,
                    ).subscribers(c)
            },
            r is Err ==> *final(self) == *old(self),
    {
        if !acknowledged {
            return Err(SubscribeError::SubscriptionSetupFailed);
        }
        if self.next_id == u64::MAX {
            return Err(SubscribeError::IdsExhausted);
        }
        let id = self.next_id;
        let ghost pre = *self;
        match self.find(&channel) {
            Some(i) => {
                proof {
                    pre.lemma_subscribers_at(i as int);
                }
                self.entries[i].subscribers.push(id);
                self.next_id = id + 1;
                proof {
                    let ii = i as int;
                    assert(self.entries@[ii].subscribers@ == pre.entries@[ii].subscribers@.push(id));
                    assert forall|x: u64| #[trigger] self.entries@[ii].subscribers@.contains(x)
                        <==> pre.entries@[ii].subscribers@.contains(x) || x == id by {
                        lemma_push_contains(pre.entries@[ii].subscribers@, id, x);
                    }
                    assert(forall|j: int| 0 <= j < self.entries@.len() && j != ii ==>
                        #[trigger] self.entries@[j] == pre.entries@[j]);
                    assert(self.entries@[ii].subscribers@.contains(id));
                    assert forall|j: int, x: u64|
                        0 <= j < self.entries@.len() && #[trigger] self.entries@[j].subscribers@.contains(x)
                        implies x < self.next_id by {
                        if j == i && x != id {
                            assert(pre.entries@[j].subscribers@.contains(x));
                        } else if j != i {
                            assert(pre.entries@[j].subscribers@.contains(x));
                        }
                    }
                    assert forall|j: int, k: int, x: u64|
                        0 <= j < self.entries@.len() && 0 <= k < self.entries@.len() && j != k
                            && #[trigger] self.entries@[j].subscribers@.contains(x)
                        implies !(#[trigger] self.entries@[k].subscribers@.contains(x)) by {
                        if x == id {
                            if j == i {
                                assert(!pre.entries@[k].subscribers@.contains(id));
                            } else {
                                assert(!pre.entries@[j].subscribers@.contains(id));
                            }
                        } else {
                            assert(pre.entries@[j].subscribers@.contains(x));
                        }
                    }
                    assert(!pre.entries@[i as int].subscribers@.contains(id));
                    self.lemma_subscribers_at(i as int);
                    assert forall|c: Seq<char>| c != channel@ implies #[trigger] self.subscribers(c)
                        == pre.subscribers(c) by {
                        self.lemma_same_names(&pre, c, i as int);
                    }
                }
            },
            None => {
                let mut subscribers: Vec<u64> = Vec::new();
                subscribers.push(id);
                self.entries.push(ChannelEntry { name: channel, subscribers });
                self.next_id = id + 1;
                proof {
                    let n = pre.entries@.len() as int;
                    assert(self.entries@[n].subscribers@ =~= seq![id]);
                    assert forall|j: int, x: u64|
                        0 <= j < self.entries@.len() && #[trigger] self.entries@[j].subscribers@.contains(x)
                        implies x < self.next_id by {
                        if j < n {
                            assert(pre.entries@[j].subscribers@.contains(x));
                        }
                    }
                    assert forall|j: int, k: int, x: u64|
                        0 <= j < self.entries@.len() && 0 <= k < self.entries@.len() && j != k
                            && #[trigger] self.entries@[j].subscribers@.contains(x)
                        implies !(#[trigger] self.entries@[k].subscribers@.contains(x)) by {
                        if j == n {
                            assert(!pre.entries@[k].subscribers@.contains(id));
                        } else if k == n {
                            assert(pre.entries@[j].subscribers@.contains(x));
                        } else {
                            assert(pre.entries@[j].subscribers@.contains(x));
                        }
                    }
                    assert forall|j: int, k: int|
                        0 <= j < k < self.entries@.len() implies #[trigger] self.entries@[j].name@
                        != #[trigger] self.entries@[k].name@ by {
                        if k == n {
                            assert(pre.entries@[j].name@ != channel@);
                        }
                    }
                    self.lemma_subscribers_at(n);
                    assert forall|c: Seq<char>| c != channel@ implies #[trigger] self.subscribers(c)
                        == pre.subscribers(c) by {
                        if pre.has_entry(c) {
                            let j = choose|j: int| 0 <= j < pre.entries@.len() && #[trigger] pre.entries@[j].name@ == c;
                            pre.lemma_subscribers_at(j);
                            self.lemma_subscribers_at(j);
                        } else {
                            assert forall|j: int| 0 <= j < self.entries@.len() implies #[trigger] self.entries@[j].name@ != c by {
                                if j < n {
                                    assert(pre.entries@[j].name@ != c);
                                }
                            }
                        }
                    }
                }
            },
        }
        Ok(id)
    }

    /// Two registries with the same channel names in the same places, whose
    /// entries differ at most at `skip`, agree on every channel not named
    /// there.
    proof fn lemma_same_names(&self, other: &BroadcastStore, c: Seq<char>, skip: int)
        requires
            self.wf(),
            other.wf(),
            self.entries@.len() == other.entries@.len(),
            0 <= skip < self.entries@.len(),
            self.entries@[skip].name@ != c,
            forall|j: int| 0 <= j < self.entries@.len() ==> #[trigger] self.entries@[j].name@ == other.entries@[j].name@,
            forall|j: int| 0 <= j < self.entries@.len() && j != skip ==> #[trigger] self.entries@[j].subscribers@ == other.entries@[j].subscribers@,
        ensures
            self.subscribers(c) == other.subscribers(c),
    {
        if other.has_entry(c) {
            let j = choose|j: int| 0 <= j < other.entries@.len() && #[trigger] other.entries@[j].name@ == c;
            other.lemma_subscribers_at(j);
            self.lemma_subscribers_at(j);
        } else {
            assert forall|j: int| 0 <= j < self.entries@.len() implies #[trigger] self.entries@[j].name@ != c by {
                assert(other.entries@[j].name@ != c);
            }
        }
    }

    /// The subscribers that a message published on `channel` goes to, in
    /// order of joining: every live subscriber of the channel, and nobody for
    /// a channel that nobody has joined. The registry is left as it is.
    pub fn broadcast(&self, channel: &str) -> (r: Vec<u64>)
        requires
            self.wf(),
        ensures
            r@ == self.subscribers(channel@),
    {
        let c = channel.to_owned();
        match self.find(&c) {
            Some(i) => {
                proof {
                    self.lemma_subscribers_at(i as int);
                }
                let ids = &self.entries[i].subscribers;
                let mut r: Vec<u64> = Vec::new();
                let mut k: usize = 0;
                while k < ids.len()
                    invariant
                        k <= ids@.len(),
                        r@ == ids@.subrange(0, k as int),
                    decreases ids@.len() - k,
                {
                    r.push(ids[k]);
                    k = k + 1;
                    proof {
                        assert(r@ =~= ids@.subrange(0, k as int));
                    }
                }
                proof {
                    assert(r@ =~= ids@);
                }
                r
            },
            None => Vec::new(),
        }
    }

    /// Whether anybody listens on the channel `"cpu"`.
    pub fn has_cpu_listener(&self) -> (r: bool)
        requires
            self.wf(),
        ensures
            r == (self.subscribers("cpu"@).len() > 0),
    {
        self.client_count("cpu") > 0
    }

    /// Whether `id` is a live subscriber of some channel.
    pub closed spec fn is_live(&self, id: u64) -> bool {
        exists|c: Seq<char>| #[trigger] self.subscribers(c).contains(id)
    }

    proof fn lemma_live_at(&self, id: u64)
        requires
            self.wf(),
        ensures
            self.is_live(id) <==> exists|i: int|
                0 <= i < self.entries@.len() && #[trigger] self.entries@[i].subscribers@.contains(id),
    {
        if self.is_live(id) {
            let c = choose|c: Seq<char>| #[trigger] self.subscribers(c).contains(id);
            if !self.has_entry(c) {
                assert(!Seq::<u64>::empty().contains(id));
            }
            let i = choose|i: int| 0 <= i < self.entries@.len() && #[trigger] self.entries@[i].name@ == c;
            self.lemma_subscribers_at(i);
        }
        if exists|i: int| 0 <= i < self.entries@.len() && #[trigger] self.entries@[i].subscribers@.contains(id) {
            let i = choose|i: int| 0 <= i < self.entries@.len() && #[trigger] self.entries@[i].subscribers@.contains(id);
            self.lemma_subscribers_at(i);
            assert(self.subscribers(self.entries@[i].name@).contains(id));
        }
    }

    /// Every live subscriber of every channel, each once: what a liveness
    /// sweep probes.
    pub fn all_clients(&self) -> (r: Vec<u64>)
        requires
            self.wf(),
        ensures
            r@.no_duplicates(),
            forall|id: u64| #[trigger] r@.contains(id) <==> self.is_live(id),
    {
        let mut r: Vec<u64> = Vec::new();
        let mut i: usize = 0;
        while i < self.entries.len()
            invariant
                self.wf(),
                i <= self.entries@.len(),
                r@.no_duplicates(),
                forall|id: u64| #[trigger] r@.contains(id) <==> exists|j: int|
                    0 <= j < i && #[trigger] self.entries@[j].subscribers@.contains(id),
            decreases self.entries@.len() - i,
        {
            let ids = &self.entries[i].subscribers;
            let ghost before = r@;
            let mut k: usize = 0;
            while k < ids.len()
                invariant
                    self.wf(),
                    i < self.entries@.len(),
                    ids == self.entries@[i as int].subscribers,
                    k <= ids@.len(),
                    r@.no_duplicates(),
                    forall|id: u64| #[trigger] before.contains(id) <==> exists|j: int|
                        0 <= j < i && #[trigger] self.entries@[j].subscribers@.contains(id),
                    forall|id: u64| #[trigger] r@.contains(id) <==> before.contains(id)
                        || ids@.subrange(0, k as int).contains(id),
                decreases ids@.len() - k,
            {
                let x = ids[k];
                proof {
                    assert(self.entries@[i as int].subscribers@.contains(x));
                    if before.contains(x) {
                        let j = choose|j: int| 0 <= j < i && #[trigger] self.entries@[j].subscribers@.contains(x);
                        assert(!self.entries@[i as int].subscribers@.contains(x));
                    }
                    if ids@.subrange(0, k as int).contains(x) {
                        let m = choose|m: int| 0 <= m < k && ids@.subrange(0, k as int)[m] == x;
                        assert(ids@[m] == ids@[k as int]);
                    }
                    assert(ids@.subrange(0, k as int).push(x) =~= ids@.subrange(0, k + 1));
                    assert forall|id: u64| #[trigger] r@.push(x).contains(id) <==> before.contains(id)
                        || ids@.subrange(0, k + 1).contains(id) by {
                        lemma_push_contains(r@, x, id);
                        lemma_push_contains(ids@.subrange(0, k as int), x, id);
                    }
                    assert forall|a: int, b: int| 0 <= a < b < r@.push(x).len() implies r@.push(x)[a] != r@.push(x)[b] by {
                        if b == r@.len() {
                            assert(r@.contains(r@[a]));
                        }
                    }
                }
                r.push(x);
                k = k + 1;
            }
            proof {
                assert(ids@.subrange(0, ids@.len() as int) =~= ids@);
                assert forall|id: u64| #[trigger] r@.contains(id) <==> exists|j: int|
                    0 <= j < i + 1 && #[trigger] self.entries@[j].subscribers@.contains(id) by {
                    if r@.contains(id) && !before.contains(id) {
                        assert(self.entries@[i as int].subscribers@.contains(id));
                    }
                }
            }
            i = i + 1;
        }
        proof {
            assert forall|id: u64| #[trigger] r@.contains(id) <==> self.is_live(id) by {
                self.lemma_live_at(id);
            }
        }
        r
    }

    /// Evicts the subscribers in `dead`, whatever their channel: the one path
    /// by which a subscriber leaves, after a failed delivery or a failed
    /// liveness probe. Every channel keeps the rest of its subscribers in
    /// their order, those that joined after `dead` was gathered included; a
    /// channel left with none loses its entry.
    pub fn remove_clients(&mut self, dead: &Vec<u64>)
        requires
            old(self).wf(),
        ensures
            final(self).wf(),
            final(self).next_id() == old(self).next_id(),
            forall|c: Seq<char>|
                #[trigger] final(self).subscribers(c) == survivors(old(self).subscribers(c), dead@),
    {
        let ghost pre = *self;
        let mut kept: Vec<ChannelEntry> = Vec::new();
        let ghost mut from: Seq<int> = Seq::empty();
        let mut i: usize = 0;
        while i < self.entries.len()
            invariant
                pre.wf(),
                *self == pre,
                i <= pre.entries@.len(),
                kept@.len() == from.len(),
                forall|j: int| 0 <= j < from.len() ==> 0 <= #[trigger] from[j] < i,
                forall|j: int, l: int| 0 <= j < l < from.len() ==> #[trigger] from[j] < #[trigger] from[l],
                forall|j: int| 0 <= j < kept@.len() ==> {
                    &&& (#[trigger] kept@[j]).name@ == pre.entries@[from[j]].name@
                    &&& kept@[j].subscribers@ == survivors(pre.entries@[from[j]].subscribers@, dead@)
                    &&& kept@[j].subscribers@.len() > 0
                },
                forall|k: int| 0 <= k < i && survivors(#[trigger] pre.entries@[k].subscribers@, dead@).len() > 0
                    ==> exists|j: int| 0 <= j < from.len() && from[j] == k,
            decreases pre.entries@.len() - i,
        {
            let ghost from_before = from;
            let subscribers = survivors_of(&self.entries[i].subscribers, dead);
            if subscribers.len() > 0 {
                let name = self.entries[i].name.clone();
                kept.push(ChannelEntry { name, subscribers });
                proof {
                    from = from.push(i as int);
                }
            }
            proof {
                assert forall|k: int| 0 <= k < i + 1 && survivors(#[trigger] pre.entries@[k].subscribers@, dead@).len() > 0
                    implies exists|j: int| 0 <= j < from.len() && from[j] == k by {
                    if k == i {
                        assert(from[from.len() - 1] == k);
                    } else {
                        let j = choose|j: int| 0 <= j < from_before.len() && from_before[j] == k;
                        assert(from[j] == k);
                    }
                }
            }
            i = i + 1;
        }
        self.entries = kept;
        proof {
            assert forall|j: int| 0 <= j < self.entries@.len() implies
                (#[trigger] self.entries@[j]).subscribers@.no_duplicates() by {
                lemma_survivors_no_duplicates(pre.entries@[from[j]].subscribers@, dead@);
            }
            assert forall|j: int, x: u64|
                0 <= j < self.entries@.len() && #[trigger] self.entries@[j].subscribers@.contains(x)
                implies x < self.next_id by {
                lemma_survivors_contains(pre.entries@[from[j]].subscribers@, dead@, x);
            }
            assert forall|j: int, k: int, x: u64|
                0 <= j < self.entries@.len() && 0 <= k < self.entries@.len() && j != k
                    && #[trigger] self.entries@[j].subscribers@.contains(x)
                implies !(#[trigger] self.entries@[k].subscribers@.contains(x)) by {
                lemma_survivors_contains(pre.entries@[from[j]].subscribers@, dead@, x);
                lemma_survivors_contains(pre.entries@[from[k]].subscribers@, dead@, x);
                if j < k {
                    assert(from[j] < from[k]);
                } else {
                    assert(from[k] < from[j]);
                }
            }
            assert forall|j: int, k: int|
                0 <= j < k < self.entries@.len() implies #[trigger] self.entries@[j].name@
                != #[trigger] self.entries@[k].name@ by {
                assert(from[j] < from[k]);
                assert(pre.entries@[from[j]].name@ != pre.entries@[from[k]].name@);
            }
            assert forall|c: Seq<char>|
                #[trigger] self.subscribers(c) == survivors(pre.subscribers(c), dead@) by {
                assert(survivors(Seq::<u64>::empty(), dead@) =~= Seq::<u64>::empty()) by {
                    reveal(Seq::filter);
                }
                if pre.has_entry(c) {
                    let k = choose|k: int| 0 <= k < pre.entries@.len() && #[trigger] pre.entries@[k].name@ == c;
                    pre.lemma_subscribers_at(k);
                    let sv = survivors(pre.entries@[k].subscribers@, dead@);
                    if sv.len() > 0 {
                        let j = choose|j: int| 0 <= j < from.len() && from[j] == k;
                        assert(self.entries@[j].name@ == c);
                        self.lemma_subscribers_at(j);
                    } else {
                        assert(sv =~= Seq::<u64>::empty());
                        assert forall|j: int| 0 <= j < self.entries@.len() implies #[trigger] self.entries@[j].name@ != c by {
                            if self.entries@[j].name@ == c {
                                if from[j] != k {
                                    pre.lemma_subscribers_at(from[j]);
                                }
                            }
                        }
                    }
                } else {
                    assert forall|j: int| 0 <= j < self.entries@.len() implies #[trigger] self.entries@[j].name@ != c by {
                        assert(pre.entries@[from[j]].name@ != c);
                    }
                }
            }
        }
    }
    /// A publish on `c` reaches every subscriber of `c`, each exactly once.
    pub proof fn lemma_publish_reaches_each_once(&self, c: Seq<char>, id: u64)
        requires
            self.wf(),
            self.subscribers(c).contains(id),
        ensures
            exists|k: int|
                0 <= k < self.subscribers(c).len() && self.subscribers(c)[k] == id && forall|l: int|
                    0 <= l < self.subscribers(c).len() && #[trigger] self.subscribers(c)[l] == id
                        ==> l == k,
    {
        let i = choose|i: int| 0 <= i < self.entries@.len() && #[trigger] self.entries@[i].name@ == c;
        self.lemma_subscribers_at(i);
        let k = choose|k: int| 0 <= k < self.subscribers(c).len() && self.subscribers(c)[k] == id;
        assert(self.subscribers(c)[k] == id);
    }

    /// The id that the next subscriber gets is not yet a subscriber of any
    /// channel: no message published before it joined can reach it, so the
    /// acknowledgment enqueued at setup comes first on its connection.
    pub proof fn lemma_next_subscriber_unreached(&self, c: Seq<char>)
        requires
            self.wf(),
            self.next_id() < u64::MAX,
        ensures
            !self.subscribers(c).contains(self.next_id() as u64),
    {
        if self.has_entry(c) {
            let i = choose|i: int| 0 <= i < self.entries@.len() && #[trigger] self.entries@[i].name@ == c;
            self.lemma_subscribers_at(i);
        }
    }

    /// Evicting one dead subscriber of `c` lowers the count of `c` by exactly
    /// one and leaves every other channel as it was.
    pub proof fn lemma_eviction_count(&self, c: Seq<char>, id: u64)
        requires
            self.wf(),
            self.subscribers(c).contains(id),
        ensures
            survivors(self.subscribers(c), seq![id]).len() == self.subscribers(c).len() - 1,
            forall|d: Seq<char>|
                d != c ==> survivors(#[trigger] self.subscribers(d), seq![id]) == self.subscribers(d),
    {
        let i = choose|i: int| 0 <= i < self.entries@.len() && #[trigger] self.entries@[i].name@ == c;
        self.lemma_subscribers_at(i);
        lemma_survivors_remove_one(self.subscribers(c), id);
        assert forall|d: Seq<char>|
            d != c implies survivors(#[trigger] self.subscribers(d), seq![id]) == self.subscribers(d) by {
            if self.has_entry(d) {
                let j = choose|j: int| 0 <= j < self.entries@.len() && #[trigger] self.entries@[j].name@ == d;
                self.lemma_subscribers_at(j);
                assert(!self.entries@[j].subscribers@.contains(id));
                lemma_survivors_none_dead(self.subscribers(d), seq![id]);
            } else {
                lemma_survivors_none_dead(self.subscribers(d), seq![id]);
            }
        }
    }
}

/// Eviction takes out exactly the dead: a subscriber stays if and only if it
/// was there and is not among `dead`, so a failed delivery to one subscriber
/// costs no other subscriber its place, and the survivors keep their order.
pub proof fn lemma_eviction_spares_the_live(ids: Seq<u64>, dead: Seq<u64>)
    ensures
        forall|x: u64| #[trigger] survivors(ids, dead).contains(x) <==> ids.contains(x) && !dead.contains(x),
        survivors(ids, dead).len() <= ids.len(),
{
    assert forall|x: u64| #[trigger] survivors(ids, dead).contains(x) <==> ids.contains(x) && !dead.contains(x) by {
        lemma_survivors_contains(ids, dead, x);
    }
    ids.lemma_filter_len(|y: u64| !dead.contains(y));
}

proof fn lemma_survivors_none_dead(ids: Seq<u64>, dead: Seq<u64>)
    requires
        forall|x: u64| ids.contains(x) ==> !dead.contains(x),
    ensures
        survivors(ids, dead) == ids,
    decreases ids.len(),
{
    reveal(Seq::filter);
    if ids.len() > 0 {
        let rest = ids.drop_last();
        assert forall|x: u64| rest.contains(x) implies !dead.contains(x) by {
            let k = choose|k: int| 0 <= k < rest.len() && rest[k] == x;
            assert(ids[k] == x);
        }
        lemma_survivors_none_dead(rest, dead);
        assert(ids.contains(ids.last()));
        assert(rest.push(ids.last()) =~= ids);
    } else {
        assert(ids =~= Seq::<u64>::empty());
    }
}

proof fn lemma_survivors_remove_one(ids: Seq<u64>, id: u64)
    requires
        ids.no_duplicates(),
        ids.contains(id),
    ensures
        survivors(ids, seq![id]).len() == ids.len() - 1,
    decreases ids.len(),
{
    reveal(Seq::filter);
    let rest = ids.drop_last();
    assert(rest.no_duplicates());
    assert(seq![id].contains(id)) by {
        assert(seq![id][0] == id);
    }
    if ids.last() == id {
        assert forall|x: u64| rest.contains(x) implies !seq![id].contains(x) by {
            let k = choose|k: int| 0 <= k < rest.len() && rest[k] == x;
            assert(ids[k] == x);
            if x == id {
                assert(ids[k] == ids[ids.len() - 1]);
            }
        }
        lemma_survivors_none_dead(rest, seq![id]);
    } else {
        let k = choose|k: int| 0 <= k < ids.len() && ids[k] == id;
        assert(rest[k] == id);
        lemma_survivors_remove_one(rest, id);
        assert(!seq![id].contains(ids.last()));
    }
}

} // verus!
