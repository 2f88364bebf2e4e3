use vstd::prelude::*;
use crate::parse::copy_range;

verus! {

/// A stored entry: key, value and, where it has one, the instant (in
/// milliseconds) from which it counts as gone.
pub type SlotV = (Seq<u8>, Seq<u8>, Option<u64>);

/// A subscription: channel and subscriber.
pub type SubV = (Seq<u8>, u64);

struct Slot {
    key: Vec<u8>,
    value: Vec<u8>,
    expires_at: Option<u64>,
}

struct Sub {
    channel: Vec<u8>,
    id: u64,
}

/// The shared store: keyed values with optional deadlines, and the
/// subscriptions of connections to channels.
pub struct Db {
    slots: Vec<Slot>,
    subs: Vec<Sub>,
}

pub open spec fn key_is_not(k: Seq<u8>) -> spec_fn(SlotV) -> bool {
    |e: SlotV| e.0 != k
}

pub open spec fn on_channel(c: Seq<u8>) -> spec_fn(SubV) -> bool {
    |p: SubV| p.0 == c
}

pub open spec fn id_is_not(id: u64) -> spec_fn(SubV) -> bool {
    |p: SubV| p.1 != id
}

pub open spec fn subscriber_of() -> spec_fn(SubV) -> u64 {
    |p: SubV| p.1
}

/// The entry last stored under `k`.
pub open spec fn lookup(es: Seq<SlotV>, k: Seq<u8>) -> Option<SlotV>
    decreases es.len(),
{
    if es.len() == 0 {
        None
    } else if es.last().0 == k {
        Some(es.last())
    } else {
        lookup(es.drop_last(), k)
    }
}

/// An entry is live at `now` until its deadline.
pub open spec fn live(e: SlotV, now: u64) -> bool {
    match e.2 {
        None => true,
        Some(d) => now < d,
    }
}

/// The value that a read of `k` at `now` sees.
pub open spec fn visible(es: Seq<SlotV>, k: Seq<u8>, now: u64) -> Option<Seq<u8>> {
    match lookup(es, k) {
        Some(e) => if live(e, now) {
            Some(e.1)
        } else {
            None
        },
        None => None,
    }
}

/// What storing `v` under `k` makes of the entries.
pub open spec fn stored(es: Seq<SlotV>, k: Seq<u8>, v: Seq<u8>, d: Option<u64>) -> Seq<SlotV> {
    es.filter(key_is_not(k)).push((k, v, d))
}

fn bytes_eq(a: &[u8], b: &[u8]) -> (r: bool)
    ensures
        r == (a@ == b@),
{
    if a.len() != b.len() {
        return false;
    }
    let mut i: usize = 0;
    while i < a.len()
        invariant
            a.len() == b.len(),
            i <= a.len(),
            forall|j: int| 0 <= j < i ==> a@[j] == b@[j],
        decreases a.len() - i,
    {
        if a[i] != b[i] {
            return false;
        }
        i = i + 1;
    }
    assert(a@ =~= b@);
    true
}

fn copy_bytes(a: &[u8]) -> (r: Vec<u8>)
    ensures
        r@ == a@,
{
    let r = copy_range(a, 0, a.len());
    assert(a@.subrange(0, a@.len() as int) =~= a@);
    r
}

impl Db {
    /// The stored entries, oldest first.
    pub closed spec fn slots(&self) -> Seq<SlotV> {
        Seq::new(
            self.slots@.len(),
            |i: int| (self.slots@[i].key@, self.slots@[i].value@, self.slots@[i].expires_at),
        )
    }

    /// The subscriptions, oldest first.
    pub closed spec fn subscriptions(&self) -> Seq<SubV> {
        Seq::new(self.subs@.len(), |i: int| (self.subs@[i].channel@, self.subs@[i].id))
    }

    /// An empty store.
    pub fn new() -> (r: Db)
        ensures
            r.slots() == Seq::<SlotV>::empty(),
            r.subscriptions() == Seq::<SubV>::empty(),
    {
        let r = Db { slots: Vec::new(), subs: Vec::new() };
        assert(r.slots() =~= Seq::<SlotV>::empty());
        assert(r.subscriptions() =~= Seq::<SubV>::empty());
        r
    }

    /// The value of `key` at `now`, unless it is absent or expired.
    pub fn get(&self, key: &[u8], now: u64) -> (r: Option<Vec<u8>>)
        ensures
            match r {
                Some(v) => visible(self.slots(), key@, now) == Some(v@),
                None => visible(self.slots(), key@, now) is None,
            },
    {
        let mut i: usize = self.slots.len();
        assert(self.slots().subrange(0, i as int) =~= self.slots());
        while i > 0
            invariant
                i <= self.slots@.len(),
                lookup(self.slots(), key@) == lookup(self.slots().subrange(0, i as int), key@),
            decreases i,
        {
            let s = &self.slots[i - 1];
            assert(self.slots().subrange(0, i as int).drop_last() =~= self.slots().subrange(
                0,
                i - 1,
            ));
            if bytes_eq(s.key.as_slice(), key) {
                let live_now = match s.expires_at {
                    None => true,
                    Some(d) => now < d,
                };
                if live_now {
                    return Some(copy_bytes(s.value.as_slice()));
                } else {
                    return None;
                }
            }
            i = i - 1;
        }
        None
    }

    fn remove_key(&mut self, key: &[u8])
        ensures
            final(self).slots() == old(self).slots().filter(key_is_not(key@)),
            final(self).subscriptions() == old(self).subscriptions(),
    {
        let mut kept: Vec<Slot> = Vec::new();
        let mut j: usize = 0;
        while j < self.slots.len()
            invariant
                j <= self.slots@.len(),
                self.slots() == old(self).slots(),
                self.subscriptions() == old(self).subscriptions(),
                Seq::new(
                    kept@.len(),
                    |i: int| (kept@[i].key@, kept@[i].value@, kept@[i].expires_at),
                ) == self.slots().subrange(0, j as int).filter(key_is_not(key@)),
            decreases self.slots@.len() - j,
        {
            let ghost before = Seq::new(
                kept@.len(),
                |i: int| (kept@[i].key@, kept@[i].value@, kept@[i].expires_at),
            );
            let s = &self.slots[j];
            let ghost sj = self.slots().subrange(0, j + 1);
            assert(sj =~= self.slots().subrange(0, j as int).push(self.slots()[j as int]));
            proof {
                self.slots().subrange(0, j as int).lemma_filter_push(self.slots()[j as int], key_is_not(key@));
            }
            if !bytes_eq(s.key.as_slice(), key) {
                let c = Slot {
                    key: copy_bytes(s.key.as_slice()),
                    value: copy_bytes(s.value.as_slice()),
                    expires_at: s.expires_at,
                };
                kept.push(c);
                assert(Seq::new(
                    kept@.len(),
                    |i: int| (kept@[i].key@, kept@[i].value@, kept@[i].expires_at),
                ) =~= before.push(self.slots()[j as int]));
            }
            j = j + 1;
        }
        assert(self.slots().subrange(0, j as int) =~= self.slots());
        self.slots = kept;
    }

    /// Stores `value` under `key`, in place of what was there, with an
    /// optional deadline.
    pub fn set(&mut self, key: &[u8], value: &[u8], expires_at: Option<u64>)
        ensures
            final(self).slots() == stored(old(self).slots(), key@, value@, expires_at),
            final(self).subscriptions() == old(self).subscriptions(),
    {
        self.remove_key(key);
        let ghost mid = self.slots();
        self.slots.push(Slot { key: copy_bytes(key), value: copy_bytes(value), expires_at });
        assert(self.slots() =~= mid.push((key@, value@, expires_at)));
    }

    /// Removes `key`; tells whether a live entry was there.
    pub fn delete(&mut self, key: &[u8], now: u64) -> (r: bool)
        ensures
            r == (visible(old(self).slots(), key@, now) is Some),
            final(self).slots() == old(self).slots().filter(key_is_not(key@)),
            final(self).subscriptions() == old(self).subscriptions(),
    {
        let was = self.get(key, now);
        self.remove_key(key);
        was.is_some()
    }

    /// Subscribes `id` to `channel`, unless it already is.
    pub fn subscribe(&mut self, channel: &[u8], id: u64)
        ensures
            final(self).subscriptions() == if old(self).subscriptions().contains((channel@, id)) {
                old(self).subscriptions()
            } else {
                old(self).subscriptions().push((channel@, id))
            },
            final(self).slots() == old(self).slots(),
    {
        let mut j: usize = 0;
        while j < self.subs.len()
            invariant
                j <= self.subs@.len(),
                forall|q: int| 0 <= q < j ==> self.subscriptions()[q] != (channel@, id),
            decreases self.subs@.len() - j,
        {
            if self.subs[j].id == id && bytes_eq(self.subs[j].channel.as_slice(), channel) {
                assert(self.subscriptions()[j as int] == (channel@, id));
                return;
            }
            j = j + 1;
        }
        let ghost before = self.subscriptions();
        self.subs.push(Sub { channel: copy_bytes(channel), id });
        assert(self.subscriptions() =~= before.push((channel@, id)));
        assert(self.slots() =~= old(self).slots());
    }

    /// Drops every subscription of `id`, as when its connection ends.
    pub fn unsubscribe_all(&mut self, id: u64)
        ensures
            final(self).subscriptions() == old(self).subscriptions().filter(id_is_not(id)),
            final(self).slots() == old(self).slots(),
    {
        let mut kept: Vec<Sub> = Vec::new();
        let mut j: usize = 0;
        while j < self.subs.len()
            invariant
                j <= self.subs@.len(),
                self.subscriptions() == old(self).subscriptions(),
                self.slots() == old(self).slots(),
                Seq::new(kept@.len(), |i: int| (kept@[i].channel@, kept@[i].id))
                    == self.subscriptions().subrange(0, j as int).filter(id_is_not(id)),
            decreases self.subs@.len() - j,
        {
            let ghost before = Seq::new(kept@.len(), |i: int| (kept@[i].channel@, kept@[i].id));
            let ghost sj = self.subscriptions().subrange(0, j + 1);
            assert(sj =~= self.subscriptions().subrange(0, j as int).push(self.subscriptions()[j as int]));
            proof {
                self.subscriptions().subrange(0, j as int).lemma_filter_push(self.subscriptions()[j as int], id_is_not(id));
            }
            if self.subs[j].id != id {
                let c = Sub { channel: copy_bytes(self.subs[j].channel.as_slice()), id: self.subs[j].id };
                kept.push(c);
                assert(Seq::new(kept@.len(), |i: int| (kept@[i].channel@, kept@[i].id))
                    =~= before.push(self.subscriptions()[j as int]));
            }
            j = j + 1;
        }
        assert(self.subscriptions().subrange(0, j as int) =~= self.subscriptions());
        self.subs = kept;
    }

    /// The subscribers of `channel` at this moment, each once, in the order
    /// in which they subscribed: those to deliver a message to.
    pub fn publish(&self, channel: &[u8]) -> (r: Vec<u64>)
        ensures
            r@ == self.subscriptions().filter(on_channel(channel@)).map_values(subscriber_of()),
    {
        let mut out: Vec<u64> = Vec::new();
        let mut j: usize = 0;
        while j < self.subs.len()
            invariant
                j <= self.subs@.len(),
                out@ == self.subscriptions().subrange(0, j as int).filter(
                    on_channel(channel@),
                ).map_values(subscriber_of()),
            decreases self.subs@.len() - j,
        {
            let ghost before = self.subscriptions().subrange(0, j as int).filter(on_channel(channel@));
            let ghost sj = self.subscriptions().subrange(0, j + 1);
            assert(sj =~= self.subscriptions().subrange(0, j as int).push(self.subscriptions()[j as int]));
            proof {
                self.subscriptions().subrange(0, j as int).lemma_filter_push(self.subscriptions()[j as int], on_channel(channel@));
            }
            if bytes_eq(self.subs[j].channel.as_slice(), channel) {
                out.push(self.subs[j].id);
                assert(out@ =~= before.push(self.subscriptions()[j as int]).map_values(
                    subscriber_of(),
                ));
            }
            j = j + 1;
        }
        assert(self.subscriptions().subrange(0, j as int) =~= self.subscriptions());
        out
    }
}

/// The instant `secs` seconds after `now`, in milliseconds, held at the
/// largest instant.
pub open spec fn deadline(now: u64, secs: u64) -> u64 {
    if now + secs * 1000 > u64::MAX {
        u64::MAX
    } else {
        (now + secs * 1000) as u64
    }
}

/// The deadline of an entry set at `now` to live `secs` seconds.
pub fn expiry_deadline(now: u64, secs: u64) -> (r: u64)
    ensures
        r == deadline(now, secs),
{
    if secs > (u64::MAX - now) / 1000 {
        u64::MAX
    } else {
        now + secs * 1000
    }
}

/// Removing a key's entries leaves the other keys as they were.
pub proof fn lemma_lookup_filter(es: Seq<SlotV>, k: Seq<u8>, q: Seq<u8>)
    ensures
        lookup(es.filter(key_is_not(k)), q) == if q == k {
            None
        } else {
            lookup(es, q)
        },
    decreases es.len(),
{
    if es.len() == 0 {
        reveal(Seq::filter);
    } else {
        let init = es.drop_last();
        assert(es =~= init.push(es.last()));
        init.lemma_filter_push(es.last(), key_is_not(k));
        lemma_lookup_filter(init, k, q);
        if key_is_not(k)(es.last()) {
            assert(init.filter(key_is_not(k)).push(es.last()).drop_last() =~= init.filter(
                key_is_not(k),
            ));
        }
    }
}

/// After a key is stored, a read of it finds what was stored, and reads of
/// other keys find what they found before.
pub proof fn lemma_lookup_stored(
    es: Seq<SlotV>,
    k: Seq<u8>,
    v: Seq<u8>,
    d: Option<u64>,
    q: Seq<u8>,
)
    ensures
        lookup(stored(es, k, v, d), q) == if q == k {
            Some((k, v, d))
        } else {
            lookup(es, q)
        },
{
    lemma_lookup_filter(es, k, q);
    assert(stored(es, k, v, d).drop_last() =~= es.filter(key_is_not(k)));
}

/// A value stored with a lifetime of `secs` seconds is read back until its
/// deadline and is absent from the deadline on, with no delete between.
pub proof fn lemma_expiry(
    es: Seq<SlotV>,
    k: Seq<u8>,
    v: Seq<u8>,
    now: u64,
    secs: u64,
    later: u64,
)
    requires
        secs > 0,
        now + secs * 1000 <= u64::MAX,
    ensures
        visible(stored(es, k, v, Some(deadline(now, secs))), k, now) == Some(v),
        later >= deadline(now, secs) ==> visible(
            stored(es, k, v, Some(deadline(now, secs))),
            k,
            later,
        ) is None,
{
    lemma_lookup_stored(es, k, v, Some(deadline(now, secs)), k);
}

/// A deleted key reads as absent, and other keys read as before.
pub proof fn lemma_deleted(es: Seq<SlotV>, k: Seq<u8>, q: Seq<u8>, now: u64)
    ensures
        visible(es.filter(key_is_not(k)), q, now) == if q == k {
            None
        } else {
            visible(es, q, now)
        },
{
    lemma_lookup_filter(es, k, q);
}

} // verus!
