use std::collections::HashSet;

use dashmap::DashMap;
use vstd::prelude::*;
use vstd::string::StringExecFns;

verus! {

broadcast use vstd::std_specs::hash::group_hash_axioms;

#[verifier::external_type_specification]
#[verifier::external_body]
#[verifier::reject_recursive_types(K)]
#[verifier::reject_recursive_types(V)]
#[verifier::reject_recursive_types(S)]
pub struct ExDashMap<K, V, S>(DashMap<K, V, S>);

/// What a channel-to-sessions map holds: for each channel name, the ids of the sessions
/// subscribed to it.
pub uninterp spec fn subscriptions_of(m: DashMap<String, HashSet<String>>) -> Map<Seq<char>, Set<Seq<char>>>;

/// The subscribers of a channel; no channel, no subscribers.
pub open spec fn members(m: Map<Seq<char>, Set<Seq<char>>>, chan: Seq<char>) -> Set<Seq<char>> {
    if m.contains_key(chan) {
        m[chan]
    } else {
        Set::empty()
    }
}

pub open spec fn no_subscriptions() -> Map<Seq<char>, Set<Seq<char>>> {
    Map::empty()
}

/// Calls `DashMap::new`: the map starts empty.
#[verifier::external_body]
fn dm_new() -> (r: DashMap<String, HashSet<String>>)
    ensures
        subscriptions_of(r) == no_subscriptions(),
{
    DashMap::new()
}

/// Calls `DashMap::entry` with `Entry::or_default` and inserts into the set there: the
/// channel's set (created empty if missing) gains the session id.
#[verifier::external_body]
fn dm_add_member(m: &mut DashMap<String, HashSet<String>>, chan: String, session_id: String)
    ensures
        subscriptions_of(*final(m)) == subscriptions_of(*old(m)).insert(
            chan@,
            members(subscriptions_of(*old(m)), chan@).insert(session_id@),
        ),
{
    m.entry(chan).or_default().insert(session_id);
}

/// Calls `DashMap::get_mut` and removes the session id from the set found there. Returns
/// `None` when the channel is missing (nothing changes), else whether its set is now empty;
/// the entry's guard is released on return.
#[verifier::external_body]
fn dm_remove_member(m: &mut DashMap<String, HashSet<String>>, chan: &str, session_id: &str) -> (r: Option<bool>)
    ensures
        r is None <==> !subscriptions_of(*old(m)).contains_key(chan@),
        r is None ==> subscriptions_of(*final(m)) == subscriptions_of(*old(m)),
        r matches Some(empty) ==> {
            &&& subscriptions_of(*final(m)) == subscriptions_of(*old(m)).insert(
                chan@,
                subscriptions_of(*old(m))[chan@].remove(session_id@),
            )
            &&& empty == (subscriptions_of(*old(m))[chan@].remove(session_id@) == Set::<Seq<char>>::empty())
        },
{
    match m.get_mut(chan) {
        Some(mut sessions) => {
            sessions.remove(session_id);
            Some(sessions.is_empty())
        },
        None => None,
    }
}

/// Calls `DashMap::remove`: the channel leaves the map.
#[verifier::external_body]
fn dm_remove_channel(m: &mut DashMap<String, HashSet<String>>, chan: &str)
    ensures
        subscriptions_of(*final(m)) == subscriptions_of(*old(m)).remove(chan@),
{
    m.remove(chan);
}

/// Calls `DashMap::get` and lists the set found there: `None` when the channel is missing,
/// else each subscribed session id once, in no particular order.
#[verifier::external_body]
fn dm_members(m: &DashMap<String, HashSet<String>>, chan: &str) -> (r: Option<Vec<String>>)
    ensures
        r is None <==> !subscriptions_of(*m).contains_key(chan@),
        r matches Some(ids) ==> {
            &&& forall|i: int| 0 <= i < ids@.len() ==> #[trigger] subscriptions_of(*m)[chan@].contains(ids@[i]@)
            &&& forall|s: Seq<char>| #[trigger] subscriptions_of(*m)[chan@].contains(s) ==> exists|i: int| 0 <= i < ids@.len() && ids@[i]@ == s
            &&& forall|i: int, j: int| 0 <= i < j < ids@.len() ==> ids@[i]@ != ids@[j]@
        },
{
    m.get(chan).map(|sessions| sessions.value().iter().cloned().collect())
}

/// The set without the session id, as far as `String` keys follow the hash-table key
/// model that vstd's `HashSet` specifications rest on.
fn without_member(mut sessions: HashSet<String>, session_id: &String) -> (r: HashSet<String>)
    ensures
        vstd::std_specs::hash::obeys_key_model::<String>() ==> r@ == sessions@.remove(*session_id),
{
    sessions.remove(session_id);
    sessions
}

/// Calls `DashMap::alter_all` with a closure that removes the session id from each set;
/// channels stay, even when left empty.
#[verifier::external_body]
fn dm_remove_member_everywhere(m: &mut DashMap<String, HashSet<String>>, session_id: &String)
    ensures
        subscriptions_of(*final(m)).dom() == subscriptions_of(*old(m)).dom(),
        forall|c: Seq<char>| #[trigger] subscriptions_of(*final(m)).contains_key(c) ==> subscriptions_of(*final(m))[c]
            == subscriptions_of(*old(m))[c].remove(session_id@),
{
    m.alter_all(|_, v| without_member(v, session_id));
}

/// A subscribe or unsubscribe request of a client.
#[derive(Debug)]
pub struct SubRequest {
    pub product_ids: Vec<String>,
    pub channels: Vec<String>,
    pub currency_ids: Option<Vec<String>>,
}

impl SubRequest {
    /// The currency ids, by their characters.
    pub open spec fn currencies(&self) -> Option<Seq<Seq<char>>> {
        match self.currency_ids {
            Some(cs) => Some(strings_view(cs@)),
            None => None,
        }
    }
}

pub open spec fn order_word() -> Seq<char> {
    seq!['o', 'r', 'd', 'e', 'r']
}

pub open spec fn funds_word() -> Seq<char> {
    seq!['f', 'u', 'n', 'd', 's']
}

/// The name of a user's channel: `user.subject.kind`.
pub open spec fn channel_name(user: Seq<char>, subject: Seq<char>, kind: Seq<char>) -> Seq<char> {
    user + seq!['.'] + subject + seq!['.'] + kind
}

pub open spec fn strings_view(s: Seq<String>) -> Seq<Seq<char>> {
    Seq::new(s.len(), |i: int| s[i]@)
}

/// The channels one kind names for a user: an order channel per product, a funds channel
/// per currency (none when no currencies are given), nothing for any other kind.
pub open spec fn kind_channels(
    kind: Seq<char>,
    user: Seq<char>,
    products: Seq<Seq<char>>,
    currencies: Option<Seq<Seq<char>>>,
) -> Seq<Seq<char>> {
    if kind == order_word() {
        Seq::new(products.len(), |i: int| channel_name(user, products[i], kind))
    } else if kind == funds_word() {
        match currencies {
            Some(cs) => Seq::new(cs.len(), |i: int| channel_name(user, cs[i], kind)),
            None => Seq::empty(),
        }
    } else {
        Seq::empty()
    }
}

/// The channels a request names, kind by kind, in order.
pub open spec fn request_channels(
    kinds: Seq<Seq<char>>,
    user: Seq<char>,
    products: Seq<Seq<char>>,
    currencies: Option<Seq<Seq<char>>>,
) -> Seq<Seq<char>>
    decreases kinds.len(),
{
    if kinds.len() == 0 {
        Seq::empty()
    } else {
        request_channels(kinds.drop_last(), user, products, currencies) + kind_channels(kinds.last(), user, products, currencies)
    }
}

/// Subscribing adds the session to the channel; unsubscribing removes it, and a channel
/// left without sessions goes.
pub open spec fn apply_one(m: Map<Seq<char>, Set<Seq<char>>>, chan: Seq<char>, sid: Seq<char>, is_sub: bool) -> Map<Seq<char>, Set<Seq<char>>> {
    if is_sub {
        m.insert(chan, members(m, chan).insert(sid))
    } else if !m.contains_key(chan) {
        m
    } else if m[chan].remove(sid) == Set::<Seq<char>>::empty() {
        m.remove(chan)
    } else {
        m.insert(chan, m[chan].remove(sid))
    }
}

/// The channels applied one after another.
pub open spec fn apply_all(m: Map<Seq<char>, Set<Seq<char>>>, chans: Seq<Seq<char>>, sid: Seq<char>, is_sub: bool) -> Map<Seq<char>, Set<Seq<char>>>
    decreases chans.len(),
{
    if chans.len() == 0 {
        m
    } else {
        apply_one(apply_all(m, chans.drop_last(), sid, is_sub), chans.last(), sid, is_sub)
    }
}

proof fn lemma_apply_push(m: Map<Seq<char>, Set<Seq<char>>>, chans: Seq<Seq<char>>, c: Seq<char>, sid: Seq<char>, is_sub: bool)
    ensures
        apply_all(m, chans.push(c), sid, is_sub) == apply_one(apply_all(m, chans, sid, is_sub), c, sid, is_sub),
{
    assert(chans.push(c).drop_last() =~= chans);
}

/// Which sessions listen to which channels.
pub struct SessionManager {
    pub subscriptions: DashMap<String, HashSet<String>>,
}

impl SessionManager {
    pub open spec fn subs(&self) -> Map<Seq<char>, Set<Seq<char>>> {
        subscriptions_of(self.subscriptions)
    }

    /// No subscriptions.
    pub fn new() -> (r: SessionManager)
        ensures
            r.subs() == Map::<Seq<char>, Set<Seq<char>>>::empty(),
    {
        SessionManager { subscriptions: dm_new() }
    }

    fn subscribe_channel(&mut self, chan: &String, session_id: &str)
        ensures
            final(self).subs() == apply_one(old(self).subs(), chan@, session_id@, true),
    {
        dm_add_member(&mut self.subscriptions, chan.clone(), String::from_str(session_id));
    }

    fn unsubscribe_channel(&mut self, chan: &String, session_id: &str)
        ensures
            final(self).subs() == apply_one(old(self).subs(), chan@, session_id@, false),
    {
        match dm_remove_member(&mut self.subscriptions, chan.as_str(), session_id) {
            Some(true) => dm_remove_channel(&mut self.subscriptions, chan.as_str()),
            _ => {},
        }
        proof {
            if old(self).subs().contains_key(chan@) && old(self).subs()[chan@].remove(session_id@) == Set::<Seq<char>>::empty() {
                assert(self.subs() =~= old(self).subs().remove(chan@));
            }
        }
    }

    fn apply_channel(&mut self, chan: &String, session_id: &str, is_sub: bool)
        ensures
            final(self).subs() == apply_one(old(self).subs(), chan@, session_id@, is_sub),
    {
        if is_sub {
            self.subscribe_channel(chan, session_id);
        } else {
            self.unsubscribe_channel(chan, session_id);
        }
    }

    /// Subscribes (or unsubscribes) the session to each channel the request names for the
    /// user, in order: `user.product.order` for each product under `order`, and
    /// `user.currency.funds` for each currency under `funds`; other kinds are ignored.
    pub fn sub_or_unsub(&mut self, sub: SubRequest, session_id: &str, user_id: &str, is_sub: bool)
        ensures
            final(self).subs() == apply_all(
                old(self).subs(),
                request_channels(
                    strings_view(sub.channels@),
                    user_id@,
                    strings_view(sub.product_ids@),
                    sub.currencies(),
                ),
                session_id@,
                is_sub,
            ),
    {
        let ghost kinds = strings_view(sub.channels@);
        let ghost products = strings_view(sub.product_ids@);
        let ghost currencies = sub.currencies();
        let order = String::from_str("order");
        let funds = String::from_str("funds");
        let dot = ".";
        proof {
            reveal_strlit("order");
            reveal_strlit("funds");
            reveal_strlit(".");
        }
        let ghost done: Seq<Seq<char>> = Seq::empty();
        let mut k: usize = 0;
        while k < sub.channels.len()
            invariant
                k <= sub.channels@.len(),
                kinds == strings_view(sub.channels@),
                products == strings_view(sub.product_ids@),
                currencies == sub.currencies(),
                order@ == order_word(),
                funds@ == funds_word(),
                dot@ == seq!['.'],
                done == request_channels(kinds.subrange(0, k as int), user_id@, products, currencies),
                self.subs() == apply_all(old(self).subs(), done, session_id@, is_sub),
            decreases sub.channels@.len() - k,
        {
            let chan = &sub.channels[k];
            let ghost before = done;
            let ghost names = kind_channels(chan@, user_id@, products, currencies);
            let ghost cur = self.subs();
            let mut names_done: usize = 0;
            let empty: Vec<String> = Vec::new();
            let subjects: &Vec<String> = if *chan == order {
                &sub.product_ids
            } else if *chan == funds {
                match &sub.currency_ids {
                    Some(cs) => cs,
                    None => &empty,
                }
            } else {
                &empty
            };
            proof {
                assert(strings_view(subjects@).len() == names.len());
            }
            while names_done < subjects.len()
                invariant
                    names_done <= subjects@.len(),
                    order@ == order_word(),
                    funds@ == funds_word(),
                    dot@ == seq!['.'],
                    names.len() == subjects@.len(),
                    forall|i: int| 0 <= i < names.len() ==> #[trigger] names[i] == channel_name(user_id@, subjects@[i]@, chan@),
                    self.subs() == apply_all(cur, names.subrange(0, names_done as int), session_id@, is_sub),
                decreases subjects@.len() - names_done,
            {
                let mut name = String::from_str(user_id);
                name.append(dot);
                name.append(subjects[names_done].as_str());
                name.append(dot);
                name.append(chan.as_str());
                proof {
                    assert(name@ =~= channel_name(user_id@, subjects@[names_done as int]@, chan@));
                    assert(names.subrange(0, names_done + 1) =~= names.subrange(0, names_done as int).push(name@));
                    lemma_apply_push(cur, names.subrange(0, names_done as int), name@, session_id@, is_sub);
                }
                self.apply_channel(&name, session_id, is_sub);
                names_done = names_done + 1;
            }
            proof {
                assert(names.subrange(0, names.len() as int) =~= names);
                lemma_apply_concat(old(self).subs(), before, names, session_id@, is_sub);
                assert(kinds.subrange(0, k + 1).drop_last() =~= kinds.subrange(0, k as int));
                assert(kinds.subrange(0, k + 1).last() == chan@);
                done = before + names;
            }
            k = k + 1;
        }
        proof {
            assert(kinds.subrange(0, kinds.len() as int) =~= kinds);
        }
    }

    /// The sessions subscribed to a channel; `None` when nobody is.
    pub fn subscribers(&self, channel: &str) -> (r: Option<Vec<String>>)
        ensures
            r is None <==> !self.subs().contains_key(channel@),
            r matches Some(ids) ==> {
                &&& forall|i: int| 0 <= i < ids@.len() ==> #[trigger] self.subs()[channel@].contains(ids@[i]@)
                &&& forall|s: Seq<char>| #[trigger] self.subs()[channel@].contains(s) ==> exists|i: int| 0 <= i < ids@.len() && ids@[i]@ == s
                &&& forall|i: int, j: int| 0 <= i < j < ids@.len() ==> ids@[i]@ != ids@[j]@
            },
    {
        dm_members(&self.subscriptions, channel)
    }

    /// Removes a closed session from every channel; the channels stay.
    pub fn remove_session(&mut self, session_id: &String)
        ensures
            final(self).subs().dom() == old(self).subs().dom(),
            forall|c: Seq<char>| #[trigger] final(self).subs().contains_key(c) ==> final(self).subs()[c] == old(self).subs()[c].remove(session_id@),
    {
        dm_remove_member_everywhere(&mut self.subscriptions, session_id);
    }
}

proof fn lemma_apply_concat(m: Map<Seq<char>, Set<Seq<char>>>, a: Seq<Seq<char>>, b: Seq<Seq<char>>, sid: Seq<char>, is_sub: bool)
    ensures
        apply_all(m, a + b, sid, is_sub) == apply_all(apply_all(m, a, sid, is_sub), b, sid, is_sub),
    decreases b.len(),
{
    if b.len() == 0 {
        assert(a + b =~= a);
    } else {
        lemma_apply_concat(m, a, b.drop_last(), sid, is_sub);
        assert((a + b).drop_last() =~= a + b.drop_last());
        assert((a + b).last() == b.last());
    }
}

/// No channel is kept without sessions.
pub open spec fn no_empty_channels(m: Map<Seq<char>, Set<Seq<char>>>) -> bool {
    forall|c: Seq<char>| #[trigger] m.contains_key(c) ==> m[c] != Set::<Seq<char>>::empty()
}

/// The sessions on a channel after the channels were applied: the session joins (or
/// leaves) each channel named; the others keep their sessions.
pub open spec fn members_after(
    m: Map<Seq<char>, Set<Seq<char>>>,
    chans: Seq<Seq<char>>,
    sid: Seq<char>,
    is_sub: bool,
    c: Seq<char>,
) -> Set<Seq<char>> {
    if chans.contains(c) {
        if is_sub {
            members(m, c).insert(sid)
        } else {
            members(m, c).remove(sid)
        }
    } else {
        members(m, c)
    }
}

proof fn lemma_apply_one_members(m: Map<Seq<char>, Set<Seq<char>>>, chan: Seq<char>, sid: Seq<char>, is_sub: bool)
    ensures
        no_empty_channels(m) ==> no_empty_channels(apply_one(m, chan, sid, is_sub)),
        forall|c: Seq<char>|
            #[trigger] members(apply_one(m, chan, sid, is_sub), c) == if c == chan {
                if is_sub {
                    members(m, c).insert(sid)
                } else {
                    members(m, c).remove(sid)
                }
            } else {
                members(m, c)
            },
{
    let r = apply_one(m, chan, sid, is_sub);
    if is_sub {
        assert(members(m, chan).insert(sid).contains(sid));
    } else if !m.contains_key(chan) {
        assert(members(m, chan).remove(sid) =~= Set::<Seq<char>>::empty());
    } else if m[chan].remove(sid) == Set::<Seq<char>>::empty() {
    } else {
    }
    if no_empty_channels(m) {
        assert forall|c: Seq<char>| #[trigger] r.contains_key(c) implies r[c] != Set::<Seq<char>>::empty() by {
            if c == chan && is_sub {
                assert(r[c].contains(sid));
            }
        }
    }
}

proof fn lemma_apply_all_members(m: Map<Seq<char>, Set<Seq<char>>>, chans: Seq<Seq<char>>, sid: Seq<char>, is_sub: bool)
    ensures
        no_empty_channels(m) ==> no_empty_channels(apply_all(m, chans, sid, is_sub)),
        forall|c: Seq<char>| #[trigger] members(apply_all(m, chans, sid, is_sub), c) == members_after(m, chans, sid, is_sub, c),
    decreases chans.len(),
{
    if chans.len() == 0 {
    } else {
        let init = chans.drop_last();
        let m1 = apply_all(m, init, sid, is_sub);
        lemma_apply_all_members(m, init, sid, is_sub);
        lemma_apply_one_members(m1, chans.last(), sid, is_sub);
        assert forall|c: Seq<char>| #[trigger] members(apply_all(m, chans, sid, is_sub), c) == members_after(m, chans, sid, is_sub, c) by {
            assert(members(m1, c) == members_after(m, init, sid, is_sub, c));
            assert(chans.contains(c) <==> (init.contains(c) || c == chans.last())) by {
                if chans.contains(c) {
                    let i = choose|i: int| 0 <= i < chans.len() && chans[i] == c;
                    if i < chans.len() - 1 {
                        assert(init[i] == c);
                    }
                }
                if init.contains(c) {
                    let i = choose|i: int| 0 <= i < init.len() && init[i] == c;
                    assert(chans[i] == c);
                }
                if c == chans.last() {
                    assert(chans[chans.len() - 1] == c);
                }
            }
            if is_sub {
                assert(members(m, c).insert(sid).insert(sid) =~= members(m, c).insert(sid));
            } else {
                assert(members(m, c).remove(sid).remove(sid) =~= members(m, c).remove(sid));
            }
        }
    }
}

proof fn lemma_same_members(m1: Map<Seq<char>, Set<Seq<char>>>, m2: Map<Seq<char>, Set<Seq<char>>>)
    requires
        no_empty_channels(m1),
        no_empty_channels(m2),
        forall|c: Seq<char>| #[trigger] members(m1, c) == members(m2, c),
    ensures
        m1 == m2,
{
    assert forall|c: Seq<char>| m1.contains_key(c) <==> m2.contains_key(c) by {
        assert(members(m1, c) == members(m2, c));
    }
    assert forall|c: Seq<char>| #[trigger] m1.contains_key(c) implies m1[c] == m2[c] by {
        assert(members(m1, c) == members(m2, c));
    }
    assert(m1 =~= m2);
}

/// Applying channels keeps every kept channel non-empty.
pub proof fn apply_keeps_channels_non_empty(m: Map<Seq<char>, Set<Seq<char>>>, chans: Seq<Seq<char>>, sid: Seq<char>, is_sub: bool)
    requires
        no_empty_channels(m),
    ensures
        no_empty_channels(apply_all(m, chans, sid, is_sub)),
{
    lemma_apply_all_members(m, chans, sid, is_sub);
}

/// Unsubscribing a session from the channels it was just subscribed to gives the
/// subscriptions back, when it was on none of them before and no channel was empty.
pub proof fn unsubscribe_undoes_subscribe(m: Map<Seq<char>, Set<Seq<char>>>, chans: Seq<Seq<char>>, sid: Seq<char>)
    requires
        no_empty_channels(m),
        forall|c: Seq<char>| chans.contains(c) ==> !(#[trigger] members(m, c)).contains(sid),
    ensures
        apply_all(apply_all(m, chans, sid, true), chans, sid, false) == m,
{
    let m1 = apply_all(m, chans, sid, true);
    lemma_apply_all_members(m, chans, sid, true);
    lemma_apply_all_members(m1, chans, sid, false);
    let m2 = apply_all(m1, chans, sid, false);
    assert forall|c: Seq<char>| #[trigger] members(m2, c) == members(m, c) by {
        assert(members(m2, c) == members_after(m1, chans, sid, false, c));
        assert(members(m1, c) == members_after(m, chans, sid, true, c));
        if chans.contains(c) {
            assert(!members(m, c).contains(sid));
            assert(members(m, c).insert(sid).remove(sid) =~= members(m, c));
        }
    }
    lemma_same_members(m2, m);
}

/// Subscribing or unsubscribing a session touches that session alone: every other session
/// listens to exactly the channels it listened to before.
pub proof fn apply_touches_only_the_session(
    m: Map<Seq<char>, Set<Seq<char>>>,
    chans: Seq<Seq<char>>,
    sid: Seq<char>,
    is_sub: bool,
    c: Seq<char>,
    other: Seq<char>,
)
    requires
        other != sid,
    ensures
        members(apply_all(m, chans, sid, is_sub), c).contains(other) == members(m, c).contains(other),
{
    lemma_apply_all_members(m, chans, sid, is_sub);
    assert(members(apply_all(m, chans, sid, is_sub), c) == members_after(m, chans, sid, is_sub, c));
}

/// After the channels were applied, each channel named holds the session (subscribing), or
/// is gone or holds other sessions only (unsubscribing).
spec fn applied_to(m: Map<Seq<char>, Set<Seq<char>>>, c: Seq<char>, sid: Seq<char>, is_sub: bool) -> bool {
    if is_sub {
        m.contains_key(c) && m[c].contains(sid)
    } else {
        m.contains_key(c) ==> m[c] != Set::<Seq<char>>::empty() && !m[c].contains(sid)
    }
}

proof fn lemma_apply_all_applied(m: Map<Seq<char>, Set<Seq<char>>>, chans: Seq<Seq<char>>, sid: Seq<char>, is_sub: bool)
    ensures
        forall|c: Seq<char>| chans.contains(c) ==> #[trigger] applied_to(apply_all(m, chans, sid, is_sub), c, sid, is_sub),
    decreases chans.len(),
{
    if chans.len() > 0 {
        let init = chans.drop_last();
        let last = chans.last();
        let m1 = apply_all(m, init, sid, is_sub);
        let r = apply_one(m1, last, sid, is_sub);
        lemma_apply_all_applied(m, init, sid, is_sub);
        assert forall|c: Seq<char>| chans.contains(c) implies #[trigger] applied_to(r, c, sid, is_sub) by {
            if c == last {
                if is_sub {
                    assert(members(m1, c).insert(sid).contains(sid));
                } else if m1.contains_key(c) && m1[c].remove(sid) != Set::<Seq<char>>::empty() {
                    assert(!m1[c].remove(sid).contains(sid));
                }
            } else {
                let k = choose|k: int| 0 <= k < chans.len() && chans[k] == c;
                assert(init[k] == c);
                assert(applied_to(m1, c, sid, is_sub));
            }
        }
    }
}

proof fn lemma_apply_all_settled(m: Map<Seq<char>, Set<Seq<char>>>, chans: Seq<Seq<char>>, sid: Seq<char>, is_sub: bool)
    requires
        forall|c: Seq<char>| chans.contains(c) ==> #[trigger] applied_to(m, c, sid, is_sub),
    ensures
        apply_all(m, chans, sid, is_sub) == m,
    decreases chans.len(),
{
    if chans.len() > 0 {
        let init = chans.drop_last();
        let last = chans.last();
        assert forall|c: Seq<char>| init.contains(c) implies #[trigger] applied_to(m, c, sid, is_sub) by {
            let k = choose|k: int| 0 <= k < init.len() && init[k] == c;
            assert(chans[k] == c);
        }
        lemma_apply_all_settled(m, init, sid, is_sub);
        assert(chans[chans.len() - 1] == last);
        assert(applied_to(m, last, sid, is_sub));
        if is_sub {
            assert(members(m, last).insert(sid) =~= m[last]);
            assert(m.insert(last, m[last]) =~= m);
        } else if m.contains_key(last) {
            assert(m[last].remove(sid) =~= m[last]);
            assert(m.insert(last, m[last]) =~= m);
        }
    }
}

/// Repeating a subscription or an unsubscription changes nothing further.
pub proof fn apply_twice_is_apply_once(m: Map<Seq<char>, Set<Seq<char>>>, chans: Seq<Seq<char>>, sid: Seq<char>, is_sub: bool)
    ensures
        apply_all(apply_all(m, chans, sid, is_sub), chans, sid, is_sub) == apply_all(m, chans, sid, is_sub),
{
    lemma_apply_all_applied(m, chans, sid, is_sub);
    lemma_apply_all_settled(apply_all(m, chans, sid, is_sub), chans, sid, is_sub);
}
proof fn lemma_request_names_kind(
    kinds: Seq<Seq<char>>,
    user: Seq<char>,
    products: Seq<Seq<char>>,
    currencies: Option<Seq<Seq<char>>>,
    kind: Seq<char>,
    c: Seq<char>,
)
    requires
        kinds.contains(kind),
        kind_channels(kind, user, products, currencies).contains(c),
    ensures
        request_channels(kinds, user, products, currencies).contains(c),
    decreases kinds.len(),
{
    let init = kinds.drop_last();
    let r0 = request_channels(init, user, products, currencies);
    let k = kind_channels(kinds.last(), user, products, currencies);
    assert(request_channels(kinds, user, products, currencies) == r0 + k);
    if kinds.last() == kind {
        let j = choose|j: int| 0 <= j < k.len() && k[j] == c;
        assert((r0 + k)[r0.len() + j] == c);
    } else {
        let i = choose|i: int| 0 <= i < kinds.len() && kinds[i] == kind;
        assert(init[i] == kind);
        lemma_request_names_kind(init, user, products, currencies, kind, c);
        let j = choose|j: int| 0 <= j < r0.len() && r0[j] == c;
        assert((r0 + k)[j] == c);
    }
}

/// A request names, for the user, the order channel of every product it lists when it
/// asks for orders, and the funds channel of every currency it lists when it asks for
/// funds: subscribing puts the session on each of those channels, and unsubscribing
/// takes it off each of them.
pub proof fn requests_reach_every_named_channel(
    m: Map<Seq<char>, Set<Seq<char>>>,
    kinds: Seq<Seq<char>>,
    user: Seq<char>,
    products: Seq<Seq<char>>,
    currencies: Option<Seq<Seq<char>>>,
    sid: Seq<char>,
    is_sub: bool,
)
    ensures
        forall|i: int|
            0 <= i < products.len() && kinds.contains(order_word()) ==> #[trigger] members(
                apply_all(m, request_channels(kinds, user, products, currencies), sid, is_sub),
                channel_name(user, products[i], order_word()),
            ).contains(sid) == is_sub,
        forall|i: int|
            currencies is Some && 0 <= i < currencies->0.len() && kinds.contains(funds_word()) ==> #[trigger] members(
                apply_all(m, request_channels(kinds, user, products, currencies), sid, is_sub),
                channel_name(user, currencies->0[i], funds_word()),
            ).contains(sid) == is_sub,
{
    let chans = request_channels(kinds, user, products, currencies);
    lemma_apply_all_members(m, chans, sid, is_sub);
    assert forall|i: int| 0 <= i < products.len() && kinds.contains(order_word()) implies #[trigger] members(
        apply_all(m, chans, sid, is_sub),
        channel_name(user, products[i], order_word()),
    ).contains(sid) == is_sub by {
        let c = channel_name(user, products[i], order_word());
        let k = kind_channels(order_word(), user, products, currencies);
        assert(k[i] == c);
        lemma_request_names_kind(kinds, user, products, currencies, order_word(), c);
        assert(members(apply_all(m, chans, sid, is_sub), c) == members_after(m, chans, sid, is_sub, c));
    }
    assert forall|i: int|
        currencies is Some && 0 <= i < currencies->0.len() && kinds.contains(funds_word()) implies #[trigger] members(
        apply_all(m, chans, sid, is_sub),
        channel_name(user, currencies->0[i], funds_word()),
    ).contains(sid) == is_sub by {
        let c = channel_name(user, currencies->0[i], funds_word());
        let k = kind_channels(funds_word(), user, products, currencies);
        assert(funds_word() != order_word());
        assert(k[i] == c);
        lemma_request_names_kind(kinds, user, products, currencies, funds_word(), c);
        assert(members(apply_all(m, chans, sid, is_sub), c) == members_after(m, chans, sid, is_sub, c));
    }
}

/// The channel is one a request names for the user: the order channel of a listed product
/// when the request asks for orders, or the funds channel of a listed currency when it asks
/// for funds.
pub open spec fn names_channel(
    kinds: Seq<Seq<char>>,
    user: Seq<char>,
    products: Seq<Seq<char>>,
    currencies: Option<Seq<Seq<char>>>,
    c: Seq<char>,
) -> bool {
    ||| kinds.contains(order_word()) && exists|i: int| 0 <= i < products.len() && c == channel_name(user, #[trigger] products[i], order_word())
    ||| kinds.contains(funds_word()) && currencies is Some && exists|i: int|
        0 <= i < currencies->0.len() && c == channel_name(user, #[trigger] currencies->0[i], funds_word())
}

proof fn lemma_request_channels_named(
    kinds: Seq<Seq<char>>,
    user: Seq<char>,
    products: Seq<Seq<char>>,
    currencies: Option<Seq<Seq<char>>>,
    c: Seq<char>,
)
    requires
        request_channels(kinds, user, products, currencies).contains(c),
    ensures
        names_channel(kinds, user, products, currencies, c),
    decreases kinds.len(),
{
    let init = kinds.drop_last();
    let last = kinds.last();
    let r0 = request_channels(init, user, products, currencies);
    let k = kind_channels(last, user, products, currencies);
    assert(request_channels(kinds, user, products, currencies) == r0 + k);
    let j = choose|j: int| 0 <= j < (r0 + k).len() && (r0 + k)[j] == c;
    assert(kinds[kinds.len() - 1] == last);
    if j < r0.len() {
        assert(r0[j] == c);
        lemma_request_channels_named(init, user, products, currencies, c);
        assert forall|x: Seq<char>| init.contains(x) implies kinds.contains(x) by {
            let a = choose|a: int| 0 <= a < init.len() && init[a] == x;
            assert(kinds[a] == x);
        }
    } else {
        assert(k[j - r0.len()] == c);
        if last == order_word() {
            assert(c == channel_name(user, products[j - r0.len()], order_word()));
        } else {
            assert(last == funds_word());
            assert(c == channel_name(user, currencies->0[j - r0.len()], funds_word()));
        }
    }
}

/// Subscribing or unsubscribing leaves every channel the request does not name as it was.
pub proof fn requests_leave_other_channels_alone(
    m: Map<Seq<char>, Set<Seq<char>>>,
    kinds: Seq<Seq<char>>,
    user: Seq<char>,
    products: Seq<Seq<char>>,
    currencies: Option<Seq<Seq<char>>>,
    sid: Seq<char>,
    is_sub: bool,
    c: Seq<char>,
)
    requires
        !names_channel(kinds, user, products, currencies, c),
    ensures
        members(apply_all(m, request_channels(kinds, user, products, currencies), sid, is_sub), c) == members(m, c),
{
    let chans = request_channels(kinds, user, products, currencies);
    lemma_apply_all_members(m, chans, sid, is_sub);
    if chans.contains(c) {
        lemma_request_channels_named(kinds, user, products, currencies, c);
    }
    assert(members(apply_all(m, chans, sid, is_sub), c) == members_after(m, chans, sid, is_sub, c));
}

} // verus!
