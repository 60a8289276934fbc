//! Topic filters and the connections that subscribed with them.

use vstd::prelude::*;
use vstd::utf8::encode_utf8;

verus! {

/// The byte that separates the levels of a topic: `/`.
pub const SEPARATOR: u8 = 0x2F;

/// The byte of the single-level wildcard: `+`.
pub const SINGLE_LEVEL: u8 = 0x2B;

/// The byte of the multi-level wildcard: `#`.
pub const MULTI_LEVEL: u8 = 0x23;

/// The byte that topics reserved for the broker start with: `$`.
pub const RESERVED: u8 = 0x24;

/// The levels of a topic or of a filter: what stands between its
/// separators. A topic without separator has one level, and so has the
/// empty topic.
pub open spec fn levels(s: Seq<u8>) -> Seq<Seq<u8>>
    decreases s.len(),
{
    if s.len() == 0 {
        seq![Seq::empty()]
    } else {
        let before = levels(s.drop_last());
        if s.last() == SEPARATOR {
            before.push(Seq::empty())
        } else {
            before.drop_last().push(before.last().push(s.last()))
        }
    }
}

/// A topic has at least one level.
pub proof fn lemma_levels_nonempty(s: Seq<u8>)
    ensures
        levels(s).len() >= 1,
    decreases s.len(),
{
    if s.len() > 0 {
        lemma_levels_nonempty(s.drop_last());
    }
}

/// Whether the levels of a filter match the levels of a topic, level by
/// level: `+` matches any one level, `#` matches all the levels that are
/// left, none included, and has to be the filter's last level, and any
/// other level matches only itself.
pub open spec fn levels_match(filter: Seq<Seq<u8>>, topic: Seq<Seq<u8>>) -> bool
    decreases filter.len(),
{
    if filter.len() == 0 {
        topic.len() == 0
    } else if filter[0] == seq![MULTI_LEVEL] {
        filter.len() == 1
    } else if topic.len() == 0 {
        false
    } else if filter[0] == seq![SINGLE_LEVEL] || filter[0] == topic[0] {
        levels_match(filter.skip(1), topic.skip(1))
    } else {
        false
    }
}

/// Whether a filter matches a topic, both given by their bytes. The levels
/// have to match, and a topic that starts with `$` is matched by no
/// filter whose first level is a wildcard.
pub open spec fn filter_matches(filter: Seq<u8>, topic: Seq<u8>) -> bool {
    let wild = levels(filter)[0] == seq![SINGLE_LEVEL] || levels(filter)[0] == seq![MULTI_LEVEL];
    let reserved = topic.len() > 0 && topic[0] == RESERVED;
    !(reserved && wild) && levels_match(levels(filter), levels(topic))
}

/// The levels of a list as values, in their order.
pub open spec fn level_views(levels: Seq<Vec<u8>>) -> Seq<Seq<u8>> {
    Seq::new(levels.len(), |i: int| levels[i]@)
}

/// Splits a topic or a filter into its levels.
fn split_levels(s: &[u8]) -> (out: Vec<Vec<u8>>)
    ensures
        level_views(out@) == levels(s@),
        out@.len() >= 1,
{
    let mut out: Vec<Vec<u8>> = Vec::new();
    let mut current: Vec<u8> = Vec::new();
    let mut i: usize = 0;
    proof {
        assert(s@.take(0) =~= Seq::empty());
        assert(level_views(out@).push(current@) =~= seq![Seq::<u8>::empty()]);
    }
    while i < s.len()
        invariant
            i <= s@.len(),
            levels(s@.take(i as int)) == level_views(out@).push(current@),
        decreases s@.len() - i,
    {
        let ghost done = level_views(out@);
        let ghost word = current@;
        proof {
            assert(s@.take(i + 1).drop_last() =~= s@.take(i as int));
            assert(s@.take(i + 1).last() == s@[i as int]);
            assert(done.push(word).drop_last() =~= done);
        }
        if s[i] == SEPARATOR {
            out.push(current);
            current = Vec::new();
            assert(level_views(out@) =~= done.push(word));
        } else {
            current.push(s[i]);
        }
        i += 1;
    }
    proof {
        assert(s@.take(i as int) =~= s@);
    }
    let ghost done = level_views(out@);
    out.push(current);
    assert(level_views(out@) =~= done.push(current@));
    out
}

/// Whether two levels are the same.
fn same_level(a: &Vec<u8>, b: &Vec<u8>) -> (same: bool)
    ensures
        same == (a@ == b@),
{
    if a.len() != b.len() {
        return false;
    }
    let mut i: usize = 0;
    while i < a.len()
        invariant
            i <= a@.len(),
            a@.len() == b@.len(),
            forall|j: int| 0 <= j < i ==> a@[j] == b@[j],
        decreases a@.len() - i,
    {
        if a[i] != b[i] {
            return false;
        }
        i += 1;
    }
    assert(a@ =~= b@);
    true
}

/// Whether a level is the one byte `wildcard`.
fn is_wildcard(level: &Vec<u8>, wildcard: u8) -> (is: bool)
    ensures
        is == (level@ == seq![wildcard]),
{
    if level.len() == 1 && level[0] == wildcard {
        assert(level@ =~= seq![wildcard]);
        true
    } else {
        false
    }
}

/// Checks if topic matches a filter. topic and filter validation isn't done here.
///
/// The levels are compared one by one: `+` in the filter stands for any
/// one level, `#` at the filter's end for all the levels that are left.
/// A topic that starts with `$` is matched by no filter that begins with
/// a wildcard.
pub fn matches(topic: &str, filter: &str) -> (matched: bool)
    ensures
        matched == filter_matches(encode_utf8(filter@), encode_utf8(topic@)),
{
    let topic_bytes = topic.as_bytes();
    let filters = split_levels(filter.as_bytes());
    let topics = split_levels(topic_bytes);
    assert(level_views(filters@)[0] == filters@[0]@);
    if topic_bytes.len() > 0 && topic_bytes[0] == RESERVED && (is_wildcard(
        &filters[0],
        SINGLE_LEVEL,
    ) || is_wildcard(&filters[0], MULTI_LEVEL)) {
        return false;
    }
    let mut i: usize = 0;
    proof {
        assert(level_views(filters@).skip(0) =~= level_views(filters@));
        assert(level_views(topics@).skip(0) =~= level_views(topics@));
    }
    loop
        invariant
            i <= filters@.len(),
            i <= topics@.len(),
            level_views(filters@) == levels(encode_utf8(filter@)),
            level_views(topics@) == levels(encode_utf8(topic@)),
            filter_matches(encode_utf8(filter@), encode_utf8(topic@)) == levels_match(
                level_views(filters@),
                level_views(topics@),
            ),
            levels_match(level_views(filters@), level_views(topics@)) == levels_match(
                level_views(filters@).skip(i as int),
                level_views(topics@).skip(i as int),
            ),
        decreases filters@.len() - i,
    {
        let ghost left = level_views(filters@).skip(i as int);
        let ghost right = level_views(topics@).skip(i as int);
        if i == filters.len() {
            return i == topics.len();
        }
        assert(left[0] == filters@[i as int]@);
        if is_wildcard(&filters[i], MULTI_LEVEL) {
            // "#" has to be the last element of the filter
            return i + 1 == filters.len();
        }
        if i == topics.len() {
            // filter still has remaining elements
            return false;
        }
        assert(right[0] == topics@[i as int]@);
        if is_wildcard(&filters[i], SINGLE_LEVEL) || same_level(&filters[i], &topics[i]) {
            proof {
                assert(left.skip(1) =~= level_views(filters@).skip(i + 1));
                assert(right.skip(1) =~= level_views(topics@).skip(i + 1));
            }
            i += 1;
        } else {
            return false;
        }
    }
}

/// A filter and the connection that subscribed with it.
#[derive(Debug)]
pub struct Subscription {
    pub filter: String,
    pub connection: usize,
}

/// The filters that connections have subscribed with, in the order in
/// which they came.
#[derive(Debug)]
pub struct Subscriptions {
    pub(crate) entries: Vec<Subscription>,
}

/// A subscription as a value: the bytes of the filter and the connection.
pub struct SubscriptionView {
    pub filter: Seq<u8>,
    pub connection: usize,
}

impl View for Subscription {
    type V = SubscriptionView;

    open spec fn view(&self) -> SubscriptionView {
        SubscriptionView { filter: encode_utf8(self.filter@), connection: self.connection }
    }
}

/// The subscriptions of a list as values, in their order.
pub open spec fn subscription_views(entries: Seq<Subscription>) -> Seq<SubscriptionView> {
    Seq::new(entries.len(), |i: int| entries[i]@)
}

impl View for Subscriptions {
    type V = Seq<SubscriptionView>;

    closed spec fn view(&self) -> Seq<SubscriptionView> {
        subscription_views(self.entries@)
    }
}

/// The subscriptions with `entry` among them: at the end, unless it was
/// among them already.
pub open spec fn noted(entries: Seq<SubscriptionView>, entry: SubscriptionView) -> Seq<
    SubscriptionView,
> {
    if entries.contains(entry) {
        entries
    } else {
        entries.push(entry)
    }
}

/// The connections of those subscriptions whose filters match `topic`, in
/// the order of the subscriptions.
pub open spec fn subscribers(entries: Seq<SubscriptionView>, topic: Seq<u8>) -> Seq<usize>
    decreases entries.len(),
{
    if entries.len() == 0 {
        Seq::empty()
    } else if filter_matches(entries.last().filter, topic) {
        subscribers(entries.drop_last(), topic).push(entries.last().connection)
    } else {
        subscribers(entries.drop_last(), topic)
    }
}

/// The subscriptions that are left when those of `connection` go, in
/// their order.
pub open spec fn without(entries: Seq<SubscriptionView>, connection: usize) -> Seq<
    SubscriptionView,
>
    decreases entries.len(),
{
    if entries.len() == 0 {
        Seq::empty()
    } else if entries.last().connection == connection {
        without(entries.drop_last(), connection)
    } else {
        without(entries.drop_last(), connection).push(entries.last())
    }
}

impl Subscriptions {
    /// No subscriptions.
    pub fn new() -> (subscriptions: Subscriptions)
        ensures
            subscriptions@ == Seq::<SubscriptionView>::empty(),
    {
        let subscriptions = Subscriptions { entries: Vec::new() };
        assert(subscriptions@ =~= Seq::<SubscriptionView>::empty());
        subscriptions
    }

    /// How many subscriptions there are.
    pub fn len(&self) -> (n: usize)
        ensures
            n == self@.len(),
    {
        self.entries.len()
    }

    /// Notes that `connection` subscribed with `filter`, unless that is
    /// noted already.
    pub fn add(&mut self, filter: String, connection: usize)
        ensures
            final(self)@ == noted(
                old(self)@,
                SubscriptionView { filter: encode_utf8(filter@), connection },
            ),
    {
        let ghost entry = SubscriptionView { filter: encode_utf8(filter@), connection };
        let mut i: usize = 0;
        while i < self.entries.len()
            invariant
                i <= self.entries@.len(),
                entry == (SubscriptionView { filter: encode_utf8(filter@), connection }),
                forall|j: int| 0 <= j < i ==> self@[j] != entry,
            decreases self.entries@.len() - i,
        {
            assert(self@[i as int] == self.entries@[i as int]@);
            if self.entries[i].connection == connection && self.entries[i].filter == filter {
                assert(self@.contains(entry));
                return;
            }
            proof {
                if self.entries@[i as int].filter@ != filter@ {
                    vstd::utf8::encode_utf8_decode_utf8(self.entries@[i as int].filter@);
                    vstd::utf8::encode_utf8_decode_utf8(filter@);
                }
            }
            i += 1;
        }
        self.entries.push(Subscription { filter, connection });
        assert(self@ =~= old(self)@.push(entry));
    }

    /// Forgets the subscriptions of `connection`.
    pub fn remove(&mut self, connection: usize)
        ensures
            final(self)@ == without(old(self)@, connection),
    {
        let mut kept: Vec<Subscription> = Vec::new();
        let ghost all = self@;
        let ghost total = self.entries@.len();
        proof {
            assert(all.take(total as int) =~= all);
        }
        while self.entries.len() > 0
            invariant
                self.entries@.len() <= total,
                all.len() == total,
                self@ == all.take(self.entries@.len() as int),
                without(all, connection) == without(self@, connection) + subscription_views(
                    kept@,
                ).reverse(),
            decreases self.entries@.len(),
        {
            let ghost before = self@;
            let ghost saved = subscription_views(kept@);
            let last = self.entries.pop();
            proof {
                assert(self@ =~= before.drop_last());
                assert(self@ =~= all.take(self.entries@.len() as int));
            }
            match last {
                Some(entry) => {
                    assert(entry@ == before.last());
                    if entry.connection != connection {
                        kept.push(entry);
                        proof {
                            assert(subscription_views(kept@) =~= saved.push(before.last()));
                            assert(subscription_views(kept@).reverse() =~= seq![before.last()]
                                + saved.reverse());
                            assert(without(self@, connection).push(before.last())
                                + saved.reverse() =~= without(self@, connection) + (
                            seq![before.last()] + saved.reverse()));
                        }
                    }
                },
                None => {},
            }
        }
        proof {
            assert(self@ =~= Seq::<SubscriptionView>::empty());
            assert(without(all, connection) =~= subscription_views(kept@).reverse());
        }
        let ghost saved = subscription_views(kept@);
        while kept.len() > 0
            invariant
                self@ + subscription_views(kept@).reverse() == saved.reverse(),
            decreases kept@.len(),
        {
            let ghost before = self@;
            let ghost left = subscription_views(kept@);
            let last = kept.pop();
            match last {
                Some(entry) => {
                    self.entries.push(entry);
                    proof {
                        assert(subscription_views(kept@) =~= left.drop_last());
                        assert(self@ =~= before.push(left.last()));
                        assert(left.reverse() =~= seq![left.last()] + left.drop_last().reverse());
                        assert(self@ + subscription_views(kept@).reverse() =~= before
                            + left.reverse());
                    }
                },
                None => {},
            }
        }
        proof {
            assert(subscription_views(kept@).reverse() =~= Seq::<SubscriptionView>::empty());
            assert(self@ =~= saved.reverse());
        }
    }

    /// The connections whose filters match `topic`, in the order in which
    /// their subscriptions came. A connection stands in the list once for
    /// each of its filters that matches.
    pub fn matches(&self, topic: &str) -> (connections: Vec<usize>)
        ensures
            connections@ == subscribers(self@, encode_utf8(topic@)),
    {
        let mut connections: Vec<usize> = Vec::new();
        let mut i: usize = 0;
        proof {
            assert(self@.take(0) =~= Seq::empty());
        }
        while i < self.entries.len()
            invariant
                i <= self.entries@.len(),
                connections@ == subscribers(self@.take(i as int), encode_utf8(topic@)),
            decreases self.entries@.len() - i,
        {
            proof {
                assert(self@.take(i + 1).drop_last() =~= self@.take(i as int));
                assert(self@.take(i + 1).last() == self.entries@[i as int]@);
            }
            if matches(topic, self.entries[i].filter.as_str()) {
                connections.push(self.entries[i].connection);
            }
            i += 1;
        }
        proof {
            assert(self@.take(i as int) =~= self@);
        }
        connections
    }
}

} // verus!
