//! The approximate event filter of the `qfilter` crate, seen through the keys it has admitted.
use vstd::prelude::*;
use vstd::arithmetic::power2::{lemma2_to64, lemma_pow2_strictly_increases, pow2};
use vstd::multiset::Multiset;

use crate::rules::event_filter::FollowedBy;

verus! {

#[verifier::external_type_specification]
#[verifier::external_body]
pub struct ExFilter(qfilter::Filter);

#[verifier::external_type_specification]
#[verifier::external_body]
pub struct ExFilterError(qfilter::Error);

/// How many fingerprints the filter holds (its `len`).
pub uninterp spec fn filter_size(f: qfilter::Filter) -> nat;

/// How many fingerprints the filter can hold once fully grown; fixed when the filter is made.
pub uninterp spec fn filter_capacity(f: qfilter::Filter) -> nat;

/// The smallest number of slot bits `q`, from `from` on, at which a filter of `2^q`
/// slots filled to 95% holds `capacity` keys.
pub open spec fn slot_bits_from(capacity: nat, from: nat) -> nat
    decreases 64 - from,
{
    if from >= 64 || (pow2(from) * 19 + 19) / 20 >= capacity {
        from
    } else {
        slot_bits_from(capacity, from + 1)
    }
}

/// The slot bits a filter made for `capacity` keys starts with: never fewer than six.
pub open spec fn slot_bits(capacity: nat) -> nat {
    slot_bits_from(capacity, 6)
}

/// How many keys a filter made for `capacity` keys with fingerprints of `bits` bits can
/// hold once fully grown: it may grow as long as a remainder bit is left, up to 59
/// slot bits, and holds 95% of its slots, rounded up.
pub open spec fn grown_capacity(capacity: nat, bits: nat) -> nat {
    let q = slot_bits(capacity);
    let grown = if bits - q > 1 {
        if bits - 1 < 59 {
            (bits - 1) as nat
        } else {
            59
        }
    } else {
        q
    };
    (pow2(grown) * 19 + 19) / 20
}

/// Up to 2^20 keys, the slot bits are found by 21 and hold the keys.
proof fn lemma_slot_bits_fit(capacity: nat, from: nat)
    requires
        capacity <= 0x10_0000,
        from <= 21,
    ensures
        slot_bits_from(capacity, from) <= 21,
        (pow2(slot_bits_from(capacity, from)) * 19 + 19) / 20 >= capacity,
    decreases 21 - from,
{
    lemma2_to64();
    if (pow2(from) * 19 + 19) / 20 < capacity {
        if from == 21 {
            assert((pow2(21) * 19 + 19) / 20 >= 0x10_0000);
        } else {
            lemma_slot_bits_fit(capacity, from + 1);
        }
    }
}

/// A filter made for up to 2^20 keys can hold them all once fully grown.
proof fn lemma_grown_capacity_reaches(capacity: nat, bits: nat)
    requires
        capacity <= 0x10_0000,
        slot_bits(capacity) < bits,
    ensures
        grown_capacity(capacity, bits) >= capacity,
{
    let q = slot_bits(capacity);
    lemma_slot_bits_fit(capacity, 6);
    let grown = if bits - q > 1 {
        if bits - 1 < 59 {
            (bits - 1) as nat
        } else {
            59
        }
    } else {
        q
    };
    if grown > q {
        lemma_pow2_strictly_increases(q, grown);
    }
    assert(pow2(grown) >= pow2(q));
    assert((pow2(grown) * 19 + 19) / 20 >= (pow2(q) * 19 + 19) / 20) by (nonlinear_arith)
        requires
            pow2(grown) >= pow2(q),
    ;
}

/// The key under which a link "`prior` followed by `next`" is admitted.
pub open spec fn link_key(prior: Seq<u32>, next: Seq<u32>) -> Seq<u32> {
    prior + next
}

/// A reported presence `present` is one the filter holding `keys` can give for `key`:
/// an admitted key is never missed, and a filter holding nothing reports nothing.
pub open spec fn admits_presence(keys: Multiset<Seq<u32>>, key: Seq<u32>, present: bool) -> bool {
    &&& keys.count(key) > 0 ==> present
    &&& present ==> keys.len() > 0
}

/// A reported count `n` is one the filter holding `keys` can give for `key`:
/// never fewer than the times the key was admitted, never more than all it holds.
pub open spec fn admits_count(keys: Multiset<Seq<u32>>, key: Seq<u32>, n: u64) -> bool {
    keys.count(key) <= n <= keys.len()
}

/// The number of links among the first `n` whose `next` is `event`: how many link
/// keys recording `event` may admit at most.
pub open spec fn count_next(links: Seq<(Seq<u32>, Seq<u32>)>, event: Seq<u32>, n: int) -> nat
    decreases n,
{
    if n <= 0 {
        0nat
    } else {
        count_next(links, event, n - 1) + if links[n - 1].1 == event { 1nat } else { 0nat }
    }
}

/// The number of links among the first `n` that were recorded.
pub open spec fn count_linked(linked: Seq<bool>, n: int) -> nat
    decreases n,
{
    if n <= 0 {
        0nat
    } else {
        count_linked(linked, n - 1) + if linked[n - 1] { 1nat } else { 0nat }
    }
}

/// The link keys of the first `n` links, for those that were recorded.
pub open spec fn links_upto(links: Seq<(Seq<u32>, Seq<u32>)>, linked: Seq<bool>, n: int) -> Multiset<Seq<u32>>
    decreases n,
{
    if n <= 0 {
        Multiset::empty()
    } else if linked[n - 1] {
        links_upto(links, linked, n - 1).insert(link_key(links[n - 1].0, links[n - 1].1))
    } else {
        links_upto(links, linked, n - 1)
    }
}

/// Which links get recorded when `event` arrives: only links whose `next` is the
/// event, none when the filter held nothing, and at least those whose `prior` the
/// filter had already admitted.
pub open spec fn valid_linking(
    old_keys: Multiset<Seq<u32>>,
    event: Seq<u32>,
    links: Seq<(Seq<u32>, Seq<u32>)>,
    linked: Seq<bool>,
) -> bool {
    &&& linked.len() == links.len()
    &&& forall|i: int| 0 <= i < links.len() && #[trigger] linked[i] ==> links[i].1 == event
    &&& old_keys.len() == 0 ==> forall|i: int| 0 <= i < links.len() ==> !#[trigger] linked[i]
    &&& forall|i: int|
        0 <= i < links.len() && links[i].1 == event && old_keys.count(#[trigger] links[i].0) > 0
            ==> linked[i]
}

/// The effect of recording `event` under the ordering `links`: the filter going from
/// `old_keys` to `new_keys` admitted one link key per recorded link, then the event
/// itself, the event exactly when there was still room for it (`admitted`).
pub open spec fn ordered_insertion(
    old_keys: Multiset<Seq<u32>>,
    new_keys: Multiset<Seq<u32>>,
    capacity: nat,
    event: Seq<u32>,
    links: Seq<(Seq<u32>, Seq<u32>)>,
    admitted: bool,
) -> bool {
    exists|linked: Seq<bool>|
        #[trigger] valid_linking(old_keys, event, links, linked) && {
            let with_links = old_keys.add(links_upto(links, linked, links.len() as int));
            &&& admitted <==> old_keys.len() + count_linked(linked, links.len() as int) < capacity
            &&& new_keys == if admitted {
                with_links.insert(event)
            } else {
                with_links
            }
        }
}

/// How the links were decided when `event` arrived at a filter answering `first`:
/// `states[i]` is what the filter answered when link `i` was looked at. It starts as
/// `first` and changes only when a link is recorded; a link is recorded exactly when
/// its `next` is the event and the filter, as it then stood, reported its `prior`.
pub open spec fn linked_by_reports(
    first: spec_fn(Seq<u32>) -> bool,
    event: Seq<u32>,
    links: Seq<(Seq<u32>, Seq<u32>)>,
    linked: Seq<bool>,
    states: Seq<spec_fn(Seq<u32>) -> bool>,
) -> bool {
    &&& linked.len() == links.len()
    &&& states.len() == links.len() + 1
    &&& states[0] == first
    &&& forall|i: int|
        0 <= i < links.len() ==> (#[trigger] linked[i] <==> links[i].1 == event && (states[i])(
            links[i].0,
        ))
    &&& forall|i: int| 0 <= i < links.len() && !#[trigger] linked[i] ==> states[i + 1] == states[i]
}

/// `ordered_insertion`, with each link decided by what the filter reported for its
/// prior event at the time, starting from a filter answering `first`.
pub open spec fn reported_insertion(
    old_keys: Multiset<Seq<u32>>,
    new_keys: Multiset<Seq<u32>>,
    capacity: nat,
    event: Seq<u32>,
    links: Seq<(Seq<u32>, Seq<u32>)>,
    admitted: bool,
    first: spec_fn(Seq<u32>) -> bool,
) -> bool {
    exists|linked: Seq<bool>, states: Seq<spec_fn(Seq<u32>) -> bool>|
        #[trigger] linked_by_reports(first, event, links, linked, states) && valid_linking(
            old_keys,
            event,
            links,
            linked,
        ) && {
            let with_links = old_keys.add(links_upto(links, linked, links.len() as int));
            &&& admitted <==> old_keys.len() + count_linked(linked, links.len() as int) < capacity
            &&& new_keys == if admitted {
                with_links.insert(event)
            } else {
                with_links
            }
        }
}

/// Link keys and counts up to `n` depend only on the first `n` choices.
pub proof fn lemma_linked_prefix(links: Seq<(Seq<u32>, Seq<u32>)>, a: Seq<bool>, b: Seq<bool>, n: int)
    requires
        forall|j: int| 0 <= j < n ==> a[j] == b[j],
    ensures
        links_upto(links, a, n) == links_upto(links, b, n),
        count_linked(a, n) == count_linked(b, n),
    decreases n,
{
    if n > 0 {
        lemma_linked_prefix(links, a, b, n - 1);
    }
}

/// No link recorded among the first `n` means none counted.
pub proof fn lemma_count_linked_none(linked: Seq<bool>, n: int)
    requires
        forall|j: int| 0 <= j < n ==> !#[trigger] linked[j],
    ensures
        count_linked(linked, n) == 0,
    decreases n,
{
    if n > 0 {
        lemma_count_linked_none(linked, n - 1);
    }
}

/// Each recorded link adds exactly one key.
pub proof fn lemma_links_upto_len(links: Seq<(Seq<u32>, Seq<u32>)>, linked: Seq<bool>, n: int)
    ensures
        links_upto(links, linked, n).len() == count_linked(linked, n),
    decreases n,
{
    if n > 0 {
        lemma_links_upto_len(links, linked, n - 1);
    }
}

/// Counting the links into `event` only grows with the prefix.
pub proof fn lemma_count_next_monotone(links: Seq<(Seq<u32>, Seq<u32>)>, event: Seq<u32>, i: int, j: int)
    requires
        i <= j,
    ensures
        count_next(links, event, i) <= count_next(links, event, j),
    decreases j - i,
{
    if i < j {
        lemma_count_next_monotone(links, event, i, j - 1);
    }
}

/// A recorded link's key is among the link keys admitted.
pub proof fn lemma_links_upto_has(links: Seq<(Seq<u32>, Seq<u32>)>, linked: Seq<bool>, n: int, i: int)
    requires
        0 <= i < n,
        linked[i],
    ensures
        links_upto(links, linked, n).count(link_key(links[i].0, links[i].1)) > 0,
    decreases n,
{
    if i < n - 1 {
        lemma_links_upto_has(links, linked, n - 1, i);
    }
}


/// `Filter::len`.
#[verifier::external_body]
fn raw_len(qf: &qfilter::Filter) -> (n: u64)
    ensures
        n == filter_size(*qf),
{
    qf.len()
}

/// `Filter::capacity_resizeable`: the capacity of the fully grown filter.
#[verifier::external_body]
fn raw_capacity(qf: &qfilter::Filter) -> (n: u64)
    ensures
        n == filter_capacity(*qf),
{
    qf.capacity_resizeable()
}

/// `Filter::clone` (derived): every field is copied, the fingerprint buffer included,
/// so the copy is the same filter.
#[verifier::external_body]
fn raw_clone(qf: &qfilter::Filter) -> (copy: qfilter::Filter)
    ensures
        copy == *qf,
{
    qf.clone()
}

/// `Filter::with_fingerprint_size`: a new filter with no fingerprints, starting with
/// `2^slot_bits(initial_capacity)` slots and fingerprints of `fingerprint_bits` bits. It
/// is refused exactly when the size is outside 7..=64 or leaves no remainder bit beyond
/// the slot bits. Capacities are kept to 2^20 keys, so that the buffer it allocates
/// stays within what any machine can address. (On x86-64 it also asserts that the CPU
/// has `popcnt`, which is taken for granted here.)
#[verifier::external_body]
fn raw_with_fingerprint_size(initial_capacity: u64, bits: u8) -> (r: Result<qfilter::Filter, qfilter::Error>)
    requires
        initial_capacity <= 0x10_0000,
    ensures
        (r is Ok) == (7 <= bits && bits <= 64 && slot_bits(initial_capacity as nat) < bits),
        r is Ok ==> filter_size(r->Ok_0) == 0,
        r is Ok ==> filter_capacity(r->Ok_0) == grown_capacity(initial_capacity as nat, bits as nat),
{
    qfilter::Filter::with_fingerprint_size(initial_capacity, bits)
}

/// A `qfilter` filter together with the keys it has admitted since it was made. It is
/// only ever made empty by `Filter::with_fingerprint_size` and changed by the calls
/// below, so every fingerprint it holds is that of an admitted key. An event `e` is
/// admitted as the key `e@`; the link "`prior` followed by `next`" as the key
/// `link_key(prior@, next@)`. The keys are counted with their multiplicity.
pub struct EventFilter {
    inner: qfilter::Filter,
    admitted: Ghost<Multiset<Seq<u32>>>,
    answers: Ghost<spec_fn(Seq<u32>) -> bool>,
    tallies: Ghost<spec_fn(Seq<u32>) -> nat>,
}

impl EventFilter {
    /// The keys admitted so far.
    pub closed spec fn keys(&self) -> Multiset<Seq<u32>> {
        self.admitted@
    }

    /// What the filter, as it stands, answers when asked whether `key` is present. It
    /// is fixed until the filter changes: the same question gets the same answer.
    pub open spec fn reports(&self, key: Seq<u32>) -> bool {
        (self.report_fn())(key)
    }

    /// The answers of the filter as it stands, as one function of the key.
    pub closed spec fn report_fn(&self) -> spec_fn(Seq<u32>) -> bool {
        self.answers@
    }

    /// How many times the filter, as it stands, counts `key`. It is fixed until the
    /// filter changes.
    pub open spec fn tally(&self, key: Seq<u32>) -> nat {
        (self.tally_fn())(key)
    }

    /// The counts of the filter as it stands, as one function of the key.
    pub closed spec fn tally_fn(&self) -> spec_fn(Seq<u32>) -> nat {
        self.tallies@
    }

    /// How many keys the filter can hold in all.
    pub closed spec fn capacity(&self) -> nat {
        filter_capacity(self.inner)
    }

    /// The filter holds one fingerprint per admitted key, and never more than its capacity.
    #[verifier::type_invariant]
    closed spec fn well_formed(&self) -> bool {
        &&& self.admitted@.len() == filter_size(self.inner)
        &&& filter_size(self.inner) <= filter_capacity(self.inner)
        &&& forall|k: Seq<u32>| self.admitted@.count(k) > 0 ==> #[trigger] (self.answers@)(k)
        &&& self.admitted@.len() == 0 ==> forall|k: Seq<u32>| !#[trigger] (self.answers@)(k)
        &&& forall|k: Seq<u32>|
            self.admitted@.count(k) <= #[trigger] (self.tallies@)(k) <= self.admitted@.len()
    }

    /// A new, empty filter with room for at least `initial_capacity` keys to start with,
    /// and fingerprints of `fingerprint_bits` bits (see `Filter::with_fingerprint_size`).
    pub fn with_fingerprint_size(initial_capacity: u64, fingerprint_bits: u8) -> (r: Result<
        EventFilter,
        qfilter::Error,
    >)
        requires
            initial_capacity <= 0x10_0000,
        ensures
            r is Ok <==> 7 <= fingerprint_bits <= 64 && slot_bits(initial_capacity as nat)
                < fingerprint_bits,
            r matches Ok(f) ==> f.keys() == Multiset::<Seq<u32>>::empty() && f.capacity()
                == grown_capacity(initial_capacity as nat, fingerprint_bits as nat),
            r matches Ok(f) ==> f.capacity() >= initial_capacity,
    {
        match raw_with_fingerprint_size(initial_capacity, fingerprint_bits) {
            Ok(inner) => {
                proof {
                    lemma_grown_capacity_reaches(initial_capacity as nat, fingerprint_bits as nat);
                }
                Ok(
                    EventFilter {
                        inner,
                        admitted: Ghost(Multiset::empty()),
                        answers: Ghost(|k: Seq<u32>| false),
                        tallies: Ghost(|k: Seq<u32>| 0nat),
                    },
                )
            },
            Err(e) => Err(e),
        }
    }

    /// The underlying filter, holding one fingerprint per admitted key.
    pub fn as_filter(&self) -> (f: &qfilter::Filter)
        ensures
            filter_size(*f) == self.keys().len(),
            filter_capacity(*f) == self.capacity(),
    {
        proof {
            use_type_invariant(self);
        }
        &self.inner
    }

    /// Gives up the bookkeeping and returns the underlying filter.
    pub fn into_filter(self) -> (f: qfilter::Filter)
        ensures
            filter_size(f) == self.keys().len(),
            filter_capacity(f) == self.capacity(),
    {
        proof {
            use_type_invariant(&self);
        }
        self.inner
    }

    /// The number of keys admitted, which never exceeds the capacity.
    pub fn len(&self) -> (n: u64)
        ensures
            n == self.keys().len(),
            n <= self.capacity(),
    {
        proof {
            use_type_invariant(self);
        }
        raw_len(&self.inner)
    }

    /// How many keys the filter can hold in all (`Filter::capacity_resizeable`).
    pub fn max_capacity(&self) -> (n: u64)
        ensures
            n == self.capacity(),
    {
        raw_capacity(&self.inner)
    }

    /// Whether the filter can still admit `extra` keys.
    pub fn has_room(&self, extra: u64) -> (r: bool)
        ensures
            r == (self.keys().len() + extra <= self.capacity()),
    {
        let len = self.len();
        let cap = self.max_capacity();
        len <= cap && extra <= cap - len
    }

    /// A copy with the same keys, answers and capacity.
    pub fn duplicate(&self) -> (copy: EventFilter)
        ensures
            copy.keys() == self.keys(),
            copy.report_fn() == self.report_fn(),
            copy.tally_fn() == self.tally_fn(),
            copy.capacity() == self.capacity(),
    {
        proof {
            use_type_invariant(self);
        }
        EventFilter {
            inner: raw_clone(&self.inner),
            admitted: Ghost(self.admitted@),
            answers: Ghost(self.answers@),
            tallies: Ghost(self.tallies@),
        }
    }

    /// `Filter::contains` on an event. The filter keeps truncated hashes, so it never
    /// misses an admitted key, and an empty filter reports nothing; a key that was
    /// never admitted may still be reported present (a false positive), and which ones
    /// are is left unsaid: that rests on a hash of the key's bytes in the machine's
    /// byte order. The answer is a function of the filter as it stands: asked again
    /// before the filter changes, it gives the same answer (`reports`).
    #[verifier::external_body]
    pub fn contains_event(&self, event: &[u32; 8]) -> (present: bool)
        ensures
            admits_presence(self.keys(), event@, present),
            present == self.reports(event@),
    {
        self.inner.contains(event)
    }

    /// `Filter::contains` on a `FollowedBy` link; as for events, an admitted link is
    /// never missed, an empty filter reports nothing, false positives are left unsaid,
    /// and the answer is fixed until the filter changes (`reports`).
    #[verifier::external_body]
    pub fn contains_link(&self, prior: [u32; 8], next: [u32; 8]) -> (present: bool)
        ensures
            admits_presence(self.keys(), link_key(prior@, next@), present),
            present == self.reports(link_key(prior@, next@)),
    {
        self.inner.contains(FollowedBy { prior, next })
    }

    /// `Filter::count` on an event: it reads the filter without changing it and counts
    /// the stored fingerprints equal to the event's, so never fewer than the times the
    /// event was admitted and never more than all the filter holds; by how much it may
    /// exceed the former (colliding fingerprints) is left unsaid. The count is a
    /// function of the filter as it stands (`tally`).
    #[verifier::external_body]
    pub fn count_event(&mut self, event: [u32; 8]) -> (n: u64)
        ensures
            *final(self) == *old(self),
            admits_count(old(self).keys(), event@, n),
            n == old(self).tally(event@),
    {
        self.inner.count(event)
    }

    /// `Filter::insert_duplicated` on an event. It adds one more fingerprint, growing
    /// the filter if it may, and the event joins the admitted keys; the changed filter
    /// answers and counts anew, still reporting every admitted key and counting each at
    /// least as often as it was admitted and at most as often as all it holds. It fails, leaving the filter
    /// as it was, exactly when the filter already holds as many fingerprints as its
    /// grown capacity allows.
    #[verifier::external_body]
    fn admit_event(&mut self, event: [u32; 8]) -> (r: Result<(), qfilter::Error>)
        ensures
            r is Ok <==> filter_size(old(self).inner) < filter_capacity(old(self).inner),
            r is Ok ==> filter_size(final(self).inner) == filter_size(old(self).inner) + 1,
            r is Ok ==> final(self).admitted@ == old(self).admitted@.insert(event@),
            r is Ok ==> forall|k: Seq<u32>|
                final(self).admitted@.count(k) > 0 ==> #[trigger] (final(self).answers@)(k),
            r is Ok ==> forall|k: Seq<u32>|
                final(self).admitted@.count(k) <= #[trigger] (final(self).tallies@)(k)
                    <= final(self).admitted@.len(),
            r is Err ==> *final(self) == *old(self),
            filter_capacity(final(self).inner) == filter_capacity(old(self).inner),
    {
        self.inner.insert_duplicated(event)
    }

    /// `Filter::insert_duplicated` on a `FollowedBy` link, with the same behaviour as
    /// for events; the link's key joins the admitted keys, and the changed filter still
    /// reports every admitted key.
    #[verifier::external_body]
    fn admit_link(&mut self, prior: [u32; 8], next: [u32; 8]) -> (r: Result<(), qfilter::Error>)
        ensures
            r is Ok <==> filter_size(old(self).inner) < filter_capacity(old(self).inner),
            r is Ok ==> filter_size(final(self).inner) == filter_size(old(self).inner) + 1,
            r is Ok ==> final(self).admitted@ == old(self).admitted@.insert(link_key(prior@, next@)),
            r is Ok ==> forall|k: Seq<u32>|
                final(self).admitted@.count(k) > 0 ==> #[trigger] (final(self).answers@)(k),
            r is Ok ==> forall|k: Seq<u32>|
                final(self).admitted@.count(k) <= #[trigger] (final(self).tallies@)(k)
                    <= final(self).admitted@.len(),
            r is Err ==> *final(self) == *old(self),
            filter_capacity(final(self).inner) == filter_capacity(old(self).inner),
    {
        self.inner.insert_duplicated(FollowedBy { prior, next })
    }

    /// Admits an event, if there is room left for it.
    pub fn insert_event_key(&mut self, event: [u32; 8]) -> (r: Result<(), qfilter::Error>)
        ensures
            r is Ok <==> old(self).keys().len() < old(self).capacity(),
            final(self).keys() == if r is Ok {
                old(self).keys().insert(event@)
            } else {
                old(self).keys()
            },
            final(self).capacity() == old(self).capacity(),
    {
        proof {
            use_type_invariant(&*self);
        }
        self.admit_event(event)
    }

    /// Admits the link "`prior` followed by `next`", if there is room left for it.
    pub fn insert_link_key(&mut self, prior: [u32; 8], next: [u32; 8]) -> (r: Result<(), qfilter::Error>)
        ensures
            r is Ok <==> old(self).keys().len() < old(self).capacity(),
            final(self).keys() == if r is Ok {
                old(self).keys().insert(link_key(prior@, next@))
            } else {
                old(self).keys()
            },
            final(self).capacity() == old(self).capacity(),
    {
        proof {
            use_type_invariant(&*self);
        }
        self.admit_link(prior, next)
    }
}

} // verus!
