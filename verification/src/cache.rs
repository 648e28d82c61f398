//! The store of derived implementations of one compilation session.
//!
//! An implementation is stored under the strategy and the fingerprint of its
//! type. The first request for a key reserves a handle and tells the
//! requester to synthesize; every later request for it is answered with that
//! same handle, so that each key is synthesized at most once. An entry is
//! never removed, and a published implementation is never replaced.
//!
//! The cache never blocks. A requester that is told that a key is pending
//! either reserved the key itself, and then uses the handle as it is, or
//! waits until something is published and asks again.

use crate::implementation::{Handle, Implementation, ImplementationV};
use crate::strategy::Strategy;
use std::collections::HashMap;
use vstd::prelude::*;

verus! {

/// One entry of the cache.
pub struct Entry {
    pub strategy: Strategy,
    pub fingerprint: u64,
    /// The implementation, once it is published.
    pub body: Option<Implementation>,
}

/// The mathematical value of an [`Entry`].
pub struct EntryV {
    pub strategy: Strategy,
    pub fingerprint: u64,
    pub body: Option<ImplementationV>,
}

impl View for Entry {
    type V = EntryV;

    open spec fn view(&self) -> EntryV {
        EntryV {
            strategy: self.strategy,
            fingerprint: self.fingerprint,
            body: match self.body {
                Some(body) => Some(body@),
                None => None,
            },
        }
    }
}

impl EntryV {
    /// Whether the entry is stored under this key.
    pub open spec fn has_key(self, strategy: Strategy, fingerprint: u64) -> bool {
        self.strategy == strategy && self.fingerprint == fingerprint
    }
}

/// The answer to a request for a key.
#[derive(Debug, Clone, Copy, PartialEq, Eq, Structural)]
pub enum Acquired {
    /// The implementation is published under this handle.
    Ready(Handle),
    /// The implementation is being synthesized and will be published under
    /// this handle.
    Pending(Handle),
    /// The key was not known. This handle is now reserved for it, and the
    /// requester is the one to synthesize and publish its implementation.
    Synthesize(Handle),
}

impl Acquired {
    /// The handle that the answer names.
    pub open spec fn handle_of(self) -> Handle {
        match self {
            Acquired::Ready(h) => h,
            Acquired::Pending(h) => h,
            Acquired::Synthesize(h) => h,
        }
    }

    /// The handle that the answer names.
    #[verifier::when_used_as_spec(handle_of)]
    pub fn handle(self) -> (h: Handle)
        ensures
            h == self.handle_of(),
    {
        match self {
            Acquired::Ready(h) => h,
            Acquired::Pending(h) => h,
            Acquired::Synthesize(h) => h,
        }
    }
}

/// The handle under which a key is stored: the place of the first entry
/// with that key.
pub open spec fn find(entries: Seq<EntryV>, strategy: Strategy, fingerprint: u64) -> Option<nat>
    decreases entries.len(),
{
    if entries.len() == 0 {
        None
    } else {
        match find(entries.drop_last(), strategy, fingerprint) {
            Some(h) => Some(h),
            None => if entries.last().has_key(strategy, fingerprint) {
                Some((entries.len() - 1) as nat)
            } else {
                None
            },
        }
    }
}

/// The entries after a request for a key.
pub open spec fn acquired_entries(entries: Seq<EntryV>, strategy: Strategy, fingerprint: u64) -> Seq<
    EntryV,
> {
    match find(entries, strategy, fingerprint) {
        Some(_) => entries,
        None => entries.push(EntryV { strategy, fingerprint, body: None }),
    }
}

/// Whether a request for a key is answered with "synthesize".
pub open spec fn must_synthesize(entries: Seq<EntryV>, strategy: Strategy, fingerprint: u64) -> bool {
    find(entries, strategy, fingerprint) is None
}

/// The handle with which a request for a key is answered.
pub open spec fn acquired_handle(entries: Seq<EntryV>, strategy: Strategy, fingerprint: u64) -> nat {
    match find(entries, strategy, fingerprint) {
        Some(h) => h,
        None => entries.len(),
    }
}

/// Whether an implementation offered for a key is taken: the key is
/// reserved and nothing is published under it yet.
pub open spec fn can_publish(entries: Seq<EntryV>, strategy: Strategy, fingerprint: u64) -> bool {
    find(entries, strategy, fingerprint) matches Some(h) && entries[h as int].body is None
}

/// The entries after an implementation is offered for a key.
pub open spec fn published_entries(
    entries: Seq<EntryV>,
    strategy: Strategy,
    fingerprint: u64,
    implementation: ImplementationV,
) -> Seq<EntryV> {
    if can_publish(entries, strategy, fingerprint) {
        entries.update(
            find(entries, strategy, fingerprint).unwrap() as int,
            EntryV { strategy, fingerprint, body: Some(implementation) },
        )
    } else {
        entries
    }
}

/// `find` gives the first entry with the key, and nothing exactly if no
/// entry has the key.
pub proof fn lemma_find(entries: Seq<EntryV>, strategy: Strategy, fingerprint: u64)
    ensures
        match find(entries, strategy, fingerprint) {
            Some(h) => {
                &&& h < entries.len()
                &&& entries[h as int].has_key(strategy, fingerprint)
                &&& forall|j: int| 0 <= j < h ==> !(#[trigger] entries[j]).has_key(strategy, fingerprint)
            },
            None => forall|j: int|
                0 <= j < entries.len() ==> !(#[trigger] entries[j]).has_key(strategy, fingerprint),
        },
    decreases entries.len(),
{
    if entries.len() > 0 {
        let front = entries.drop_last();
        lemma_find(front, strategy, fingerprint);
        assert forall|j: int| 0 <= j < front.len() implies front[j] == entries[j] by {}
        match find(front, strategy, fingerprint) {
            Some(h) => {
                assert(front[h as int] == entries[h as int]);
                assert forall|j: int| 0 <= j < h implies !(#[trigger] entries[j]).has_key(
                    strategy,
                    fingerprint,
                ) by {
                    assert(front[j] == entries[j]);
                }
            },
            None => {
                assert forall|j: int| 0 <= j < front.len() implies !(#[trigger] entries[j]).has_key(
                    strategy,
                    fingerprint,
                ) by {
                    assert(front[j] == entries[j]);
                }
            },
        }
    }
}

/// Where a key is stored once one more entry is added: where it was, or
/// at the new entry where it was nowhere and the new entry has it.
pub proof fn lemma_find_push(
    entries: Seq<EntryV>,
    entry: EntryV,
    strategy: Strategy,
    fingerprint: u64,
)
    ensures
        find(entries.push(entry), strategy, fingerprint) == (match find(
            entries,
            strategy,
            fingerprint,
        ) {
            Some(h) => Some(h),
            None => if entry.has_key(strategy, fingerprint) {
                Some(entries.len())
            } else {
                None
            },
        }),
{
    assert(entries.push(entry).drop_last() =~= entries);
}

/// The number under which a key is kept in the index.
pub open spec fn key_code(strategy: Strategy, fingerprint: u64) -> u128 {
    (strategy.code_of() * 0x1_0000_0000_0000_0000 + fingerprint) as u128
}

/// The number under which a key is kept in the index.
fn code_of_key(strategy: Strategy, fingerprint: u64) -> (code: u128)
    ensures
        code == key_code(strategy, fingerprint),
{
    (strategy.code() as u128) * 0x1_0000_0000_0000_0000u128 + (fingerprint as u128)
}

/// The implementations derived in one compilation session.
pub struct DerivationCache {
    index: HashMap<u128, usize>,
    entries: Vec<Entry>,
}

impl View for DerivationCache {
    type V = Seq<EntryV>;

    closed spec fn view(&self) -> Seq<EntryV> {
        Seq::new(self.entries@.len(), |i: int| self.entries@[i]@)
    }
}

impl DerivationCache {
    /// The index names exactly the entries, each under its own key.
    pub closed spec fn wf(&self) -> bool {
        &&& forall|i: int|
            0 <= i < self.entries@.len() ==> {
                let code = key_code(
                    (#[trigger] self.entries@[i]).strategy,
                    self.entries@[i].fingerprint,
                );
                self.index@.contains_key(code) && self.index@[code] == i
            }
        &&& forall|code: u128| #[trigger]
            self.index@.contains_key(code) ==> {
                let h = self.index@[code];
                h < self.entries@.len() && key_code(
                    self.entries@[h as int].strategy,
                    self.entries@[h as int].fingerprint,
                ) == code
            }
    }

    /// In a well-formed cache the index answers as `find` does.
    proof fn lemma_index_is_find(&self, strategy: Strategy, fingerprint: u64)
        requires
            self.wf(),
        ensures
            find(self@, strategy, fingerprint) == (if self.index@.contains_key(
                key_code(strategy, fingerprint),
            ) {
                Some(self.index@[key_code(strategy, fingerprint)] as nat)
            } else {
                None
            }),
    {
        let code = key_code(strategy, fingerprint);
        lemma_find(self@, strategy, fingerprint);
        assert forall|j: int| 0 <= j < self@.len() implies (#[trigger] self@[j]).has_key(
            strategy,
            fingerprint,
        ) == (key_code(self.entries@[j].strategy, self.entries@[j].fingerprint) == code) by {}
        if self.index@.contains_key(code) {
            let h = self.index@[code];
            assert(self@[h as int].has_key(strategy, fingerprint));
            match find(self@, strategy, fingerprint) {
                Some(first) => {
                    assert(self@[first as int].has_key(strategy, fingerprint));
                    assert(self.entries@[first as int].strategy == strategy);
                },
                None => {},
            }
        } else {
            match find(self@, strategy, fingerprint) {
                Some(first) => {
                    assert(self@[first as int].has_key(strategy, fingerprint));
                    assert(self.entries@[first as int].strategy == strategy);
                },
                None => {},
            }
        }
    }

    /// A cache without entries.
    pub fn new() -> (cache: DerivationCache)
        ensures
            cache.wf(),
            cache@ == Seq::<EntryV>::empty(),
    {
        let cache = DerivationCache { index: HashMap::new(), entries: Vec::new() };
        assert(cache@ =~= Seq::<EntryV>::empty());
        cache
    }

    /// The number of entries, published or reserved.
    pub fn len(&self) -> (n: usize)
        ensures
            n == self@.len(),
    {
        self.entries.len()
    }

    /// The handle under which a key is stored, if it is.
    pub fn lookup(&self, strategy: Strategy, fingerprint: u64) -> (handle: Option<Handle>)
        requires
            self.wf(),
        ensures
            match handle {
                Some(h) => find(self@, strategy, fingerprint) == Some(h as nat),
                None => find(self@, strategy, fingerprint) is None,
            },
    {
        broadcast use vstd::std_specs::hash::group_hash_axioms;

        proof {
            self.lemma_index_is_find(strategy, fingerprint);
        }
        let code: u128 = code_of_key(strategy, fingerprint);
        match self.index.get(&code) {
            Some(h) => Some(*h),
            None => None,
        }
    }

    /// The implementation that is published under a handle, if one is.
    pub fn get(&self, handle: Handle) -> (implementation: Option<&Implementation>)
        ensures
            match implementation {
                Some(body) => handle < self@.len() && self@[handle as int].body == Some(body@),
                None => handle >= self@.len() || self@[handle as int].body is None,
            },
    {
        if handle < self.entries.len() {
            match &self.entries[handle].body {
                Some(body) => Some(body),
                None => None,
            }
        } else {
            None
        }
    }

    /// Asks for the implementation of a key.
    ///
    /// A key that is not known is entered as reserved, and the answer is
    /// `Synthesize` with its new handle. A key that is known is answered
    /// with its handle: `Ready` where the implementation is published,
    /// `Pending` where it is not yet. Nothing else changes.
    pub fn acquire(&mut self, strategy: Strategy, fingerprint: u64) -> (answer: Acquired)
        requires
            old(self).wf(),
        ensures
            final(self).wf(),
            final(self)@ == acquired_entries(old(self)@, strategy, fingerprint),
            answer.handle_of() == acquired_handle(old(self)@, strategy, fingerprint),
            answer is Synthesize <==> must_synthesize(old(self)@, strategy, fingerprint),
            answer is Ready <==> !must_synthesize(old(self)@, strategy, fingerprint) && old(
                self,
            )@[answer.handle_of() as int].body is Some,
            find(final(self)@, strategy, fingerprint) == Some(answer.handle_of() as nat),
            forall|other: Strategy, digest: u64|
                !(other == strategy && digest == fingerprint) ==> #[trigger] find(
                    final(self)@,
                    other,
                    digest,
                ) == find(old(self)@, other, digest),
    {
        broadcast use vstd::std_specs::hash::group_hash_axioms;

        proof {
            self.lemma_index_is_find(strategy, fingerprint);
        }
        let code: u128 = code_of_key(strategy, fingerprint);
        let found: Option<usize> = match self.index.get(&code) {
            Some(h) => Some(*h),
            None => None,
        };
        match found {
            Some(h) => {
                if self.entries[h].body.is_some() {
                    Acquired::Ready(h)
                } else {
                    Acquired::Pending(h)
                }
            },
            None => {
                let h: usize = self.entries.len();
                self.entries.push(Entry { strategy, fingerprint, body: None });
                self.index.insert(code, h);
                assert(self@ =~= old(self)@.push(EntryV { strategy, fingerprint, body: None }));
                assert forall|other: Strategy, digest: u64| #[trigger]
                    find(self@, other, digest) == (match find(old(self)@, other, digest) {
                        Some(h) => Some(h),
                        None => if other == strategy && digest == fingerprint {
                            Some(old(self)@.len())
                        } else {
                            None
                        },
                    }) by {
                    lemma_find_push(
                        old(self)@,
                        EntryV { strategy, fingerprint, body: None },
                        other,
                        digest,
                    );
                }
                assert(self.wf()) by {
                    assert forall|i: int| 0 <= i < self.entries@.len() implies {
                        let c = key_code(
                            (#[trigger] self.entries@[i]).strategy,
                            self.entries@[i].fingerprint,
                        );
                        self.index@.contains_key(c) && self.index@[c] == i
                    } by {
                        if i < h {
                            assert(self.entries@[i] == old(self).entries@[i]);
                        }
                    }
                    assert forall|c: u128| #[trigger] self.index@.contains_key(c) implies {
                        let at = self.index@[c];
                        at < self.entries@.len() && key_code(
                            self.entries@[at as int].strategy,
                            self.entries@[at as int].fingerprint,
                        ) == c
                    } by {
                        if c != code {
                            assert(old(self).index@.contains_key(c));
                            let at = old(self).index@[c];
                            assert(self.entries@[at as int] == old(self).entries@[at as int]);
                        }
                    }
                }
                Acquired::Synthesize(h)
            },
        }
    }

    /// Offers the implementation of a key.
    ///
    /// Where the key is reserved and nothing is published under it, the
    /// implementation is published and stays the implementation of the key;
    /// the result is its handle. Otherwise nothing changes and the result is
    /// `None`.
    pub fn publish(
        &mut self,
        strategy: Strategy,
        fingerprint: u64,
        implementation: Implementation,
    ) -> (handle: Option<Handle>)
        requires
            old(self).wf(),
        ensures
            final(self).wf(),
            final(self)@ == published_entries(old(self)@, strategy, fingerprint, implementation@),
            handle is Some <==> can_publish(old(self)@, strategy, fingerprint),
            handle matches Some(h) ==> find(old(self)@, strategy, fingerprint) == Some(h as nat),
            forall|other: Strategy, digest: u64| #[trigger]
                find(final(self)@, other, digest) == find(old(self)@, other, digest),
    {
        broadcast use vstd::std_specs::hash::group_hash_axioms;

        proof {
            self.lemma_index_is_find(strategy, fingerprint);
            lemma_find(self@, strategy, fingerprint);
        }
        let code: u128 = code_of_key(strategy, fingerprint);
        let found: Option<usize> = match self.index.get(&code) {
            Some(h) => Some(*h),
            None => None,
        };
        match found {
            Some(h) => {
                if self.entries[h].body.is_none() {
                    self.entries.set(h, Entry { strategy, fingerprint, body: Some(implementation) });
                    assert(self@ =~= old(self)@.update(
                        h as int,
                        EntryV { strategy, fingerprint, body: Some(implementation@) },
                    ));
                    assert forall|other: Strategy, digest: u64| #[trigger]
                        find(self@, other, digest) == find(old(self)@, other, digest) by {
                        lemma_find_by_keys(old(self)@, self@, other, digest);
                    }
                    assert(self.wf()) by {
                        assert forall|i: int| 0 <= i < self.entries@.len() implies {
                            let c = key_code(
                                (#[trigger] self.entries@[i]).strategy,
                                self.entries@[i].fingerprint,
                            );
                            self.index@.contains_key(c) && self.index@[c] == i
                        } by {
                            if i != h {
                                assert(self.entries@[i] == old(self).entries@[i]);
                            } else {
                                assert(old(self).entries@[i].strategy == strategy);
                            }
                        }
                        assert forall|c: u128| #[trigger] self.index@.contains_key(c) implies {
                            let at = self.index@[c];
                            at < self.entries@.len() && key_code(
                                self.entries@[at as int].strategy,
                                self.entries@[at as int].fingerprint,
                            ) == c
                        } by {
                            let at = self.index@[c];
                            if at != h {
                                assert(self.entries@[at as int] == old(self).entries@[at as int]);
                            }
                        }
                    }
                    Some(h)
                } else {
                    None
                }
            },
            None => None,
        }
    }
}

/// A request made of a cache.
pub enum Request {
    Acquire { strategy: Strategy, fingerprint: u64 },
    Publish { strategy: Strategy, fingerprint: u64, implementation: ImplementationV },
}

/// The entries after one request.
pub open spec fn step(entries: Seq<EntryV>, request: Request) -> Seq<EntryV> {
    match request {
        Request::Acquire { strategy, fingerprint } => acquired_entries(
            entries,
            strategy,
            fingerprint,
        ),
        Request::Publish { strategy, fingerprint, implementation } => published_entries(
            entries,
            strategy,
            fingerprint,
            implementation,
        ),
    }
}

/// The entries after a series of requests, made by whoever and in whatever
/// order.
pub open spec fn after(entries: Seq<EntryV>, requests: Seq<Request>) -> Seq<EntryV>
    decreases requests.len(),
{
    if requests.len() == 0 {
        entries
    } else {
        step(after(entries, requests.drop_last()), requests.last())
    }
}

/// Two series of entries with the same keys in the same places store every
/// key under the same handle.
proof fn lemma_find_by_keys(a: Seq<EntryV>, b: Seq<EntryV>, strategy: Strategy, fingerprint: u64)
    requires
        a.len() == b.len(),
        forall|i: int|
            0 <= i < a.len() ==> a[i].strategy == b[i].strategy && a[i].fingerprint
                == b[i].fingerprint,
    ensures
        find(a, strategy, fingerprint) == find(b, strategy, fingerprint),
    decreases a.len(),
{
    if a.len() > 0 {
        lemma_find_by_keys(a.drop_last(), b.drop_last(), strategy, fingerprint);
    }
}

/// No request moves a key: a key that has a handle keeps it. No request
/// removes an entry, and none changes a published one.
pub proof fn lemma_step_is_stable(entries: Seq<EntryV>, request: Request)
    ensures
        step(entries, request).len() >= entries.len(),
        forall|strategy: Strategy, fingerprint: u64|
            find(entries, strategy, fingerprint) is Some ==> #[trigger] find(
                step(entries, request),
                strategy,
                fingerprint,
            ) == find(entries, strategy, fingerprint),
        forall|h: int|
            0 <= h < entries.len() && entries[h].body is Some ==> #[trigger] step(
                entries,
                request,
            )[h] == entries[h],
{
    let next = step(entries, request);
    match request {
        Request::Acquire { strategy, fingerprint } => {
            if find(entries, strategy, fingerprint) is None {
                assert(next.drop_last() =~= entries);
            }
        },
        Request::Publish { strategy, fingerprint, implementation } => {
            lemma_find(entries, strategy, fingerprint);
            assert forall|s: Strategy, f: u64| find(entries, s, f) is Some implies #[trigger] find(
                next,
                s,
                f,
            ) == find(entries, s, f) by {
                lemma_find_by_keys(entries, next, s, f);
            }
        },
    }
}

/// Publishing is the only way in which an implementation becomes visible:
/// where an entry has an implementation after a request and had none
/// before, the request published that implementation under the key of the
/// entry. An entry that a request adds has no implementation yet.
pub proof fn lemma_only_publish_makes_visible(entries: Seq<EntryV>, request: Request, h: int)
    requires
        0 <= h < step(entries, request).len(),
        step(entries, request)[h].body is Some,
        h < entries.len() ==> entries[h].body is None,
    ensures
        h < entries.len(),
        request matches Request::Publish { strategy, fingerprint, implementation }
            && entries[h].has_key(strategy, fingerprint) && step(entries, request)[h].body == Some(
            implementation,
        ),
{
    match request {
        Request::Acquire { strategy, fingerprint } => {},
        Request::Publish { strategy, fingerprint, implementation } => {
            lemma_find(entries, strategy, fingerprint);
        },
    }
}

/// Whatever requests are made, a key that has a handle keeps it, and what
/// is published under a handle stays as it is.
pub proof fn lemma_requests_are_stable(entries: Seq<EntryV>, requests: Seq<Request>)
    ensures
        after(entries, requests).len() >= entries.len(),
        forall|strategy: Strategy, fingerprint: u64|
            find(entries, strategy, fingerprint) is Some ==> #[trigger] find(
                after(entries, requests),
                strategy,
                fingerprint,
            ) == find(entries, strategy, fingerprint),
        forall|h: int|
            0 <= h < entries.len() && entries[h].body is Some ==> #[trigger] after(
                entries,
                requests,
            )[h] == entries[h],
    decreases requests.len(),
{
    if requests.len() > 0 {
        let before = after(entries, requests.drop_last());
        lemma_requests_are_stable(entries, requests.drop_last());
        lemma_step_is_stable(before, requests.last());
        assert forall|h: int| 0 <= h < entries.len() && entries[h].body is Some implies #[trigger] after(
            entries,
            requests,
        )[h] == entries[h] by {
            assert(before[h] == entries[h]);
            assert(step(before, requests.last())[h] == before[h]);
        }
    }
}

/// Splitting a series of requests in two gives the same entries.
proof fn lemma_after_split(entries: Seq<EntryV>, requests: Seq<Request>, at: int)
    requires
        0 <= at <= requests.len(),
    ensures
        after(entries, requests) == after(
            after(entries, requests.take(at)),
            requests.skip(at),
        ),
    decreases requests.len() - at,
{
    let tail = requests.skip(at);
    if at == requests.len() {
        assert(requests.take(at) =~= requests);
        assert(tail.len() == 0);
    } else {
        let front = requests.drop_last();
        assert(tail.drop_last() =~= front.skip(at));
        assert(front.take(at) =~= requests.take(at));
        assert(tail.last() == requests.last());
        lemma_after_split(entries, front, at);
    }
}

/// Each key is synthesized at most once: of two requests for the same key
/// in a series of requests, however many other requests are made before,
/// between and after them, the later one is never told to synthesize, and
/// both are answered with the same handle.
pub proof fn lemma_single_flight(
    entries: Seq<EntryV>,
    requests: Seq<Request>,
    first: int,
    second: int,
    strategy: Strategy,
    fingerprint: u64,
)
    requires
        0 <= first < second < requests.len(),
        requests[first] == (Request::Acquire { strategy, fingerprint }),
        requests[second] == (Request::Acquire { strategy, fingerprint }),
    ensures
        !must_synthesize(after(entries, requests.take(second)), strategy, fingerprint),
        acquired_handle(after(entries, requests.take(second)), strategy, fingerprint)
            == acquired_handle(after(entries, requests.take(first)), strategy, fingerprint),
{
    let before_first = after(entries, requests.take(first));
    let after_first = after(entries, requests.take(first + 1));
    let before_second = after(entries, requests.take(second));
    assert(requests.take(first + 1).drop_last() =~= requests.take(first));
    assert(after_first == acquired_entries(before_first, strategy, fingerprint));
    lemma_find(before_first, strategy, fingerprint);
    if find(before_first, strategy, fingerprint) is None {
        assert(after_first.drop_last() =~= before_first);
    }
    assert(find(after_first, strategy, fingerprint) == Some(
        acquired_handle(before_first, strategy, fingerprint),
    ));
    let middle = requests.take(second).skip(first + 1);
    lemma_after_split(entries, requests.take(second), first + 1);
    assert(requests.take(second).take(first + 1) =~= requests.take(first + 1));
    lemma_requests_are_stable(after_first, middle);
}

/// A published implementation is permanent: whatever requests follow, the
/// handle holds the same implementation.
pub proof fn lemma_published_is_permanent(
    entries: Seq<EntryV>,
    requests: Seq<Request>,
    handle: int,
)
    requires
        0 <= handle < entries.len(),
        entries[handle].body is Some,
    ensures
        handle < after(entries, requests).len(),
        after(entries, requests)[handle] == entries[handle],
{
    lemma_requests_are_stable(entries, requests);
}

} // verus!
