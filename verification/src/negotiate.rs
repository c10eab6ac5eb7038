//! Negotiation: from the arguments of a command and the answers in the
//! chat to the roster of a match.

use crate::duel::DUEL_DURATION;
use crate::error::MatchError;
use crate::registry::{ids_of, Data, DataView, User};
use crate::state::{remaining_time, time_left};
use crate::text::{
    chars_of, str_eq, decimal_text, read_u64, same_text, trim, trimmed, unsigned_text, write_u64,
};
use vstd::prelude::*;

verus! {

/// How long an invitation can be accepted, in seconds.
pub const WAIT_DURATION: u64 = 30;

/// The rating that stands in where no player has one.
pub const DEFAULT_RATING: i32 = 1000;

/// The id that a mention names: the text, trimmed, is `<@`, an unsigned
/// decimal number that is not zero, and `>`.
pub open spec fn mention_id(s: Seq<char>) -> Option<u64> {
    let t = trimmed(s);
    if t.len() >= 3 && t[0] == '<' && t[1] == '@' && t[t.len() - 1] == '>' {
        match unsigned_text(t.subrange(2, t.len() - 1)) {
            Some(v) => if 0 < v <= u64::MAX {
                Some(v as u64)
            } else {
                None
            },
            None => None,
        }
    } else {
        None
    }
}

/// The id that the mention `mention` names, if it is a mention.
pub fn extract_user_id(mention: &str) -> (r: Option<u64>)
    ensures
        r == mention_id(mention@),
{
    let text = chars_of(mention);
    let t = trim(&text);
    if t.len() < 3 || t[0] != '<' || t[1] != '@' || t[t.len() - 1] != '>' {
        return None;
    }
    let mut digits: Vec<char> = Vec::new();
    let mut i: usize = 2;
    while i < t.len() - 1
        invariant
            2 <= i <= t.len() - 1,
            digits@ == t@.subrange(2, i as int),
        decreases t.len() - i,
    {
        digits.push(t[i]);
        assert(t@.subrange(2, i + 1) =~= t@.subrange(2, i as int).push(t@[i as int]));
        i += 1;
    }
    proof {
        crate::text::lemma_unsigned_text(digits@);
    }
    match read_u64(&digits) {
        Some(v) => if v == 0 {
            None
        } else {
            Some(v)
        },
        None => None,
    }
}

/// The views of a list of arguments.
pub open spec fn arg_views(args: Seq<String>) -> Seq<Seq<char>> {
    Seq::new(args.len(), |i: int| args[i]@)
}

/// What the arguments from position `i` on make of the invitation so far.
///
/// A mention of somebody invited already is passed over. A mention of a
/// registered participant invites it; one of the author refuses the whole
/// invitation. The first argument that is no mention ends the list: where
/// options are accepted and it is an unsigned number of 32 bits, it is the
/// option; else the invitation is refused.
pub open spec fn invitation_from(
    data: DataView,
    author: u64,
    args: Seq<Seq<char>>,
    accept_option: bool,
    i: int,
    opponents: Seq<u64>,
) -> Result<(Seq<u64>, Option<u32>), MatchError>
    decreases args.len() - i,
{
    if i < 0 || i >= args.len() {
        Ok((opponents, None))
    } else {
        match mention_id(args[i]) {
            Some(id) => {
                if opponents.contains(id) {
                    invitation_from(data, author, args, accept_option, i + 1, opponents)
                } else if id == author {
                    Err(MatchError::SelfInvite)
                } else if data.registered(id) {
                    invitation_from(data, author, args, accept_option, i + 1, opponents.push(id))
                } else {
                    invitation_from(data, author, args, accept_option, i + 1, opponents)
                }
            },
            None => match unsigned_text(args[i]) {
                Some(v) => if accept_option && v <= u32::MAX {
                    Ok((opponents, Some(v as u32)))
                } else {
                    Err(MatchError::NotAUser)
                },
                None => Err(MatchError::NotAUser),
            },
        }
    }
}

/// The invitation that the arguments of a command make: who is invited,
/// and the option, if one is given. The author must be registered.
pub open spec fn invitation(
    data: DataView,
    author: u64,
    args: Seq<Seq<char>>,
    accept_option: bool,
) -> Result<(Seq<u64>, Option<u32>), MatchError> {
    if !data.registered(author) {
        Err(MatchError::NotRegistered)
    } else {
        invitation_from(data, author, args, accept_option, 0, Seq::empty())
    }
}

/// Nobody is invited twice, the author is not invited, and everybody
/// invited is registered.
pub proof fn lemma_invitation(
    data: DataView,
    author: u64,
    args: Seq<Seq<char>>,
    accept_option: bool,
    i: int,
    opponents: Seq<u64>,
)
    requires
        0 <= i <= args.len(),
        opponents.no_duplicates(),
        !opponents.contains(author),
        forall|j: int| 0 <= j < opponents.len() ==> data.registered(#[trigger] opponents[j]),
    ensures
        invitation_from(data, author, args, accept_option, i, opponents) matches Ok(inv) ==> {
            &&& inv.0.no_duplicates()
            &&& !inv.0.contains(author)
            &&& forall|j: int| 0 <= j < inv.0.len() ==> data.registered(#[trigger] inv.0[j])
        },
    decreases args.len() - i,
{
    if i < args.len() {
        match mention_id(args[i]) {
            Some(id) => {
                if opponents.contains(id) {
                    lemma_invitation(data, author, args, accept_option, i + 1, opponents);
                } else if id == author {
                } else if data.registered(id) {
                    let next = opponents.push(id);
                    assert forall|a: int, b: int|
                        0 <= a < next.len() && 0 <= b < next.len() && a != b implies next[a]
                        != next[b] by {
                        if a < opponents.len() && b < opponents.len() {
                        } else if a < opponents.len() {
                            assert(opponents.contains(opponents[a]));
                        } else {
                            assert(opponents.contains(opponents[b]));
                        }
                    }
                    assert forall|j: int| 0 <= j < next.len() implies data.registered(
                        #[trigger] next[j],
                    ) by {
                        if j < opponents.len() {
                            assert(next[j] == opponents[j]);
                        }
                    }
                    assert(!next.contains(author)) by {
                        if next.contains(author) {
                            let w = choose|w: int| 0 <= w < next.len() && next[w] == author;
                            assert(opponents[w] == author);
                        }
                    }
                    lemma_invitation(data, author, args, accept_option, i + 1, next);
                } else {
                    lemma_invitation(data, author, args, accept_option, i + 1, opponents);
                }
            },
            None => {},
        }
    }
}

/// Whether `id` is one of `ids`.
pub fn has_user_id(ids: &Vec<u64>, id: u64) -> (b: bool)
    ensures
        b == ids@.contains(id),
{
    let mut i: usize = 0;
    while i < ids.len()
        invariant
            i <= ids.len(),
            forall|j: int| 0 <= j < i ==> ids[j] != id,
        decreases ids.len() - i,
    {
        if ids[i] == id {
            return true;
        }
        i += 1;
    }
    false
}

/// Reads the arguments of a command that invites to a match: see
/// [`invitation`].
pub fn handle_args(data: &Data, author: u64, args: &Vec<String>, accept_option: bool) -> (r: Result<
    (Vec<u64>, Option<u32>),
    MatchError,
>)
    ensures
        match invitation(data@, author, arg_views(args@), accept_option) {
            Ok(inv) => r matches Ok(got) && got.0@ == inv.0 && got.1 == inv.1,
            Err(e) => r == Err::<(Vec<u64>, Option<u32>), MatchError>(e),
        },
{
    if data.position_of(author).is_none() {
        return Err(MatchError::NotRegistered);
    }
    let ghost views = arg_views(args@);
    let mut opponents: Vec<u64> = Vec::new();
    let mut i: usize = 0;
    while i < args.len()
        invariant
            i <= args.len(),
            views == arg_views(args@),
            data@.registered(author),
            invitation(data@, author, views, accept_option) == invitation_from(
                data@,
                author,
                views,
                accept_option,
                i as int,
                opponents@,
            ),
        decreases args.len() - i,
    {
        assert(views[i as int] == args[i as int]@);
        match extract_user_id(args[i].as_str()) {
            Some(id) => {
                if !has_user_id(&opponents, id) {
                    if id == author {
                        return Err(MatchError::SelfInvite);
                    }
                    if data.position_of(id).is_some() {
                        opponents.push(id);
                    }
                }
            },
            None => {
                if !accept_option {
                    return Err(MatchError::NotAUser);
                }
                let text = chars_of(args[i].as_str());
                proof {
                    crate::text::lemma_unsigned_text(text@);
                }
                return match crate::text::read_u64(&text) {
                    Some(v) => if v <= u32::MAX as u64 {
                        Ok((opponents, Some(v as u32)))
                    } else {
                        Err(MatchError::NotAUser)
                    },
                    None => Err(MatchError::NotAUser),
                };
            },
        }
        i += 1;
    }
    Ok((opponents, None))
}

/// The message with which an invitation of `initiator` is accepted.
pub open spec fn accept_text(initiator: u64) -> Seq<char> {
    "~accept <@"@ + decimal_text(initiator as nat) + ">"@
}

/// The message `text` of `author` accepts the invitation of `initiator`:
/// the author is invited, has not accepted before, and the text is the
/// accepting message.
pub open spec fn accepts(
    opponents: Seq<u64>,
    accepted: Seq<u64>,
    initiator: u64,
    author: u64,
    text: Seq<char>,
) -> bool {
    opponents.contains(author) && !accepted.contains(author) && text == accept_text(initiator)
}

/// Who has accepted after the first `n` messages of a collection that
/// began with nobody: each message, with its author and its text, is taken
/// as [`collect_messages`] takes it.
pub open spec fn collected(
    opponents: Seq<u64>,
    initiator: u64,
    messages: Seq<(u64, Seq<char>)>,
    n: int,
) -> Seq<u64>
    decreases n,
{
    if n <= 0 {
        Seq::empty()
    } else {
        let before = collected(opponents, initiator, messages, n - 1);
        if accepts(opponents, before, initiator, messages[n - 1].0, messages[n - 1].1) {
            before.push(messages[n - 1].0)
        } else {
            before
        }
    }
}

/// One of the first `n` messages is the accepting message, sent by `user`.
pub open spec fn has_sent(
    initiator: u64,
    messages: Seq<(u64, Seq<char>)>,
    n: int,
    user: u64,
) -> bool {
    exists|k: int| 0 <= k < n && #[trigger] messages[k] == (user, accept_text(initiator))
}

/// A collection holds exactly the invited who sent the accepting message,
/// each of them once: whatever else arrives — other texts, messages of
/// others, an acceptance sent twice — changes nothing.
pub proof fn lemma_collection(
    opponents: Seq<u64>,
    initiator: u64,
    messages: Seq<(u64, Seq<char>)>,
    n: int,
)
    requires
        0 <= n <= messages.len(),
    ensures
        collected(opponents, initiator, messages, n).no_duplicates(),
        forall|j: int|
            0 <= j < collected(opponents, initiator, messages, n).len() ==> opponents.contains(
                #[trigger] collected(opponents, initiator, messages, n)[j],
            ),
        forall|user: u64|
            #[trigger] collected(opponents, initiator, messages, n).contains(user) <==> (
            opponents.contains(user) && has_sent(initiator, messages, n, user)),
    decreases n,
{
    let now = collected(opponents, initiator, messages, n);
    if n > 0 {
        lemma_collection(opponents, initiator, messages, n - 1);
        let before = collected(opponents, initiator, messages, n - 1);
        let author = messages[n - 1].0;
        let text = messages[n - 1].1;
        let taken = accepts(opponents, before, initiator, author, text);
        if taken {
            lemma_acceptance(opponents, before, initiator, author, text);
        }
        assert forall|user: u64| #[trigger] now.contains(user) <==> (opponents.contains(user)
            && has_sent(initiator, messages, n, user)) by {
            if now.contains(user) {
                let j = choose|j: int| 0 <= j < now.len() && now[j] == user;
                if j < before.len() {
                    assert(before[j] == user);
                    assert(before.contains(user));
                    let k = choose|k: int|
                        0 <= k < n - 1 && #[trigger] messages[k] == (user, accept_text(initiator));
                    assert(messages[k] == (user, accept_text(initiator)));
                } else {
                    assert(taken && user == author);
                    assert(messages[n - 1] == (user, accept_text(initiator)));
                }
            }
            if opponents.contains(user) && has_sent(initiator, messages, n, user) {
                let k = choose|k: int|
                    0 <= k < n && #[trigger] messages[k] == (user, accept_text(initiator));
                if k < n - 1 {
                    assert(has_sent(initiator, messages, n - 1, user));
                    assert(before.contains(user));
                    let j = choose|j: int| 0 <= j < before.len() && before[j] == user;
                    assert(now[j] == user);
                } else {
                    assert(author == user && text == accept_text(initiator));
                    if before.contains(user) {
                        let j = choose|j: int| 0 <= j < before.len() && before[j] == user;
                        assert(now[j] == user);
                    } else {
                        assert(taken);
                        assert(now[before.len() as int] == user);
                    }
                }
            }
        }
    } else {
        assert forall|user: u64| #[trigger] now.contains(user) <==> (opponents.contains(user)
            && has_sent(initiator, messages, n, user)) by {}
    }
}

/// Reports a chat message to the collection of acceptances. Where it
/// accepts the invitation, its author is added to `accepted`; any other
/// message changes nothing. The result says whether every invited
/// participant has accepted, so that the collection can end before its time.
pub fn collect_messages(
    opponents: &Vec<u64>,
    accepted: &mut Vec<u64>,
    initiator: u64,
    author: u64,
    text: &str,
) -> (done: bool)
    ensures
        final(accepted)@ == if accepts(opponents@, old(accepted)@, initiator, author, text@) {
            old(accepted)@.push(author)
        } else {
            old(accepted)@
        },
        done == (final(accepted)@.len() >= opponents@.len()),
{
    if has_user_id(opponents, author) && !has_user_id(accepted, author) {
        let mut wanted = chars_of("~accept <@");
        let mut number = write_u64(initiator);
        wanted.append(&mut number);
        wanted.push('>');
        proof {
            reveal_strlit(">");
            assert(wanted@ =~= accept_text(initiator));
        }
        let got = chars_of(text);
        if same_text(&got, &wanted) {
            accepted.push(author);
        }
    }
    accepted.len() >= opponents.len()
}

/// A participant that cannot join because it plays a match.
#[derive(Clone, Copy, Debug, PartialEq, Eq, Structural)]
pub struct Busy {
    /// The participant.
    pub user_id: u64,
    /// The seconds that are left of its match.
    pub remaining: u64,
}

/// Who is asked to confirm: the initiator, then who accepted.
pub open spec fn candidates(initiator: u64, accepted: Seq<u64>) -> Seq<u64> {
    seq![initiator] + accepted
}

impl DataView {
    /// The participant with id `uid` is registered and plays no match.
    pub open spec fn idle(self, uid: u64) -> bool {
        self.registered(uid) && self.record(uid).duel_id is None
    }

    /// The participant with id `uid` is registered and plays a match.
    pub open spec fn engaged(self, uid: u64) -> bool {
        self.registered(uid) && self.record(uid).duel_id is Some
    }

    /// The seconds that are left at `now` of the match that the participant
    /// with id `uid` plays; none without such a match.
    pub open spec fn remaining_of(self, uid: u64, now: u64) -> int {
        match self.record(uid).duel_id {
            Some(id) => match self.match_position(id) {
                Some(k) => time_left(
                    self.duels[k].begin_time,
                    match self.duels[k].match_duration {
                        Some(limit) => limit,
                        None => DUEL_DURATION,
                    },
                    now,
                ),
                None => 0,
            },
            None => 0,
        }
    }
}

/// [`DataView::idle`] as a predicate on ids.
pub open spec fn idle_pred(data: DataView) -> spec_fn(u64) -> bool {
    |uid: u64| data.idle(uid)
}

/// [`DataView::engaged`] as a predicate on ids.
pub open spec fn engaged_pred(data: DataView) -> spec_fn(u64) -> bool {
    |uid: u64| data.engaged(uid)
}

/// The ids of a list of busy participants.
pub open spec fn busy_ids(busy: Seq<Busy>) -> Seq<u64> {
    Seq::new(busy.len(), |j: int| busy[j].user_id)
}

/// Who of the candidates can play, and who cannot.
#[derive(Debug)]
pub struct Confirmation {
    /// The candidates that play no match, in the order of the candidates.
    pub roster: Vec<User>,
    /// The candidates that play a match, in the order of the candidates.
    pub busy: Vec<Busy>,
}

/// Puts one candidate on the roster if it plays no match, on the list of
/// the busy if it plays one.
fn confirm_one(data: &Data, uid: u64, now: u64, roster: &mut Vec<User>, busy: &mut Vec<Busy>)
    requires
        forall|j: int|
            0 <= j < old(roster).len() ==> (#[trigger] old(roster)[j])@ == data@.record(
                old(roster)[j].user_id,
            ),
        forall|j: int|
            0 <= j < old(busy).len() ==> (#[trigger] old(busy)[j]).remaining == data@.remaining_of(
                old(busy)[j].user_id,
                now,
            ),
    ensures
        ids_of(final(roster).deep_view()) == if data@.idle(uid) {
            ids_of(old(roster).deep_view()).push(uid)
        } else {
            ids_of(old(roster).deep_view())
        },
        busy_ids(final(busy)@) == if data@.engaged(uid) {
            busy_ids(old(busy)@).push(uid)
        } else {
            busy_ids(old(busy)@)
        },
        forall|j: int|
            0 <= j < final(roster).len() ==> (#[trigger] final(roster)[j])@ == data@.record(
                final(roster)[j].user_id,
            ),
        forall|j: int|
            0 <= j < final(busy).len() ==> (#[trigger] final(busy)[j]).remaining
                == data@.remaining_of(final(busy)[j].user_id, now),
{
    match data.position_of(uid) {
        Some(i) => {
            match data.data[i].duel_id {
                None => {
                    let ghost before = ids_of(roster.deep_view());
                    roster.push(data.data[i].clone());
                    assert(ids_of(roster.deep_view()) =~= before.push(uid));
                },
                Some(id) => {
                    let remaining = match data.match_position(id) {
                        Some(k) => {
                            let limit = match data.duels[k].match_duration {
                                Some(limit) => limit,
                                None => DUEL_DURATION,
                            };
                            remaining_time(data.duels[k].begin_time, limit, now)
                        },
                        None => 0,
                    };
                    let ghost before = busy_ids(busy@);
                    busy.push(Busy { user_id: uid, remaining });
                    assert(busy_ids(busy@) =~= before.push(uid));
                },
            }
        },
        None => {},
    }
}

/// Asks the registry which of the candidates of a match can play: the
/// initiator and who accepted, in this order. A candidate that plays a match
/// already is left out of the roster and listed as busy, with the time that
/// is left of its match at `now`.
pub fn confirm_user_in_match(data: &Data, initiator: u64, accepted_users: &Vec<u64>, now: u64) -> (r:
    Confirmation)
    ensures
        ids_of(r.roster.deep_view()) == candidates(initiator, accepted_users@).filter(
            idle_pred(data@),
        ),
        forall|j: int|
            0 <= j < r.roster.len() ==> (#[trigger] r.roster[j])@ == data@.record(
                r.roster[j].user_id,
            ),
        busy_ids(r.busy@) == candidates(initiator, accepted_users@).filter(engaged_pred(data@)),
        forall|j: int|
            0 <= j < r.busy.len() ==> (#[trigger] r.busy[j]).remaining == data@.remaining_of(
                r.busy[j].user_id,
                now,
            ),
{
    let ghost all = candidates(initiator, accepted_users@);
    let ghost idle = idle_pred(data@);
    let ghost engaged = engaged_pred(data@);
    let mut roster: Vec<User> = Vec::new();
    let mut busy: Vec<Busy> = Vec::new();
    proof {
        reveal(Seq::filter);
        assert(all.take(0).filter(idle) =~= Seq::empty());
        assert(all.take(0).filter(engaged) =~= Seq::empty());
        assert(ids_of(roster.deep_view()) =~= Seq::empty());
        assert(busy_ids(busy@) =~= Seq::empty());
        assert(all.take(1) =~= all.take(0).push(initiator));
        all.take(0).lemma_filter_push(initiator, idle);
        all.take(0).lemma_filter_push(initiator, engaged);
    }
    confirm_one(data, initiator, now, &mut roster, &mut busy);
    let mut c: usize = 0;
    while c < accepted_users.len()
        invariant
            c <= accepted_users.len(),
            all == candidates(initiator, accepted_users@),
            idle == idle_pred(data@),
            engaged == engaged_pred(data@),
            ids_of(roster.deep_view()) == all.take(c + 1).filter(idle),
            forall|j: int|
                0 <= j < roster.len() ==> (#[trigger] roster[j])@ == data@.record(
                    roster[j].user_id,
                ),
            busy_ids(busy@) == all.take(c + 1).filter(engaged),
            forall|j: int|
                0 <= j < busy.len() ==> (#[trigger] busy[j]).remaining == data@.remaining_of(
                    busy[j].user_id,
                    now,
                ),
        decreases accepted_users.len() - c,
    {
        let uid = accepted_users[c];
        proof {
            assert(all[c + 1] == uid);
            assert(all.take(c + 2) =~= all.take(c + 1).push(uid));
            all.take(c + 1).lemma_filter_push(uid, idle);
            all.take(c + 1).lemma_filter_push(uid, engaged);
        }
        confirm_one(data, uid, now, &mut roster, &mut busy);
        c += 1;
    }
    assert(all.take(c + 1) =~= all);
    Confirmation { roster, busy }
}

/// What is picked from a list without doubles has none, and is of the
/// list.
proof fn lemma_picked_distinct(s: Seq<u64>, pred: spec_fn(u64) -> bool)
    requires
        s.no_duplicates(),
    ensures
        s.filter(pred).no_duplicates(),
        forall|k: int|
            0 <= k < s.filter(pred).len() ==> s.contains(#[trigger] s.filter(pred)[k]) && pred(
                s.filter(pred)[k],
            ),
    decreases s.len(),
{
    reveal(Seq::filter);
    if s.len() > 0 {
        let front = s.drop_last();
        let picked = s.filter(pred);
        let before = front.filter(pred);
        assert forall|a: int, b: int|
            0 <= a < front.len() && 0 <= b < front.len() && a != b implies front[a] != front[b] by {
            assert(s[a] != s[b]);
        }
        lemma_picked_distinct(front, pred);
        assert forall|k: int| 0 <= k < picked.len() implies s.contains(#[trigger] picked[k])
            && pred(picked[k]) by {
            if k < before.len() {
                assert(picked[k] == before[k]);
                assert(front.contains(before[k]));
                let w = choose|w: int| 0 <= w < front.len() && front[w] == before[k];
                assert(s[w] == picked[k]);
            } else {
                assert(s[s.len() - 1] == picked[k]);
            }
        }
        assert forall|a: int, b: int|
            0 <= a < picked.len() && 0 <= b < picked.len() && a != b implies picked[a]
            != picked[b] by {
            if a < before.len() && b < before.len() {
                assert(before[a] != before[b]);
            } else {
                let c = if a < before.len() { a } else { b };
                assert(front.contains(before[c]));
                let w = choose|w: int| 0 <= w < front.len() && front[w] == before[c];
                assert(s[w] != s[s.len() - 1]);
            }
        }
    }
}

/// In a well-formed registry a participant that plays no match is
/// available.
pub proof fn lemma_idle_is_available(data: DataView, uid: u64)
    requires
        data.wf(),
        data.idle(uid),
    ensures
        data.available(uid),
{
    let ids = ids_of(data.users);
    ids.index_of_first_ensures(uid);
    let pos = data.position(uid);
    assert forall|i: int|
        0 <= i < data.users.len() && (#[trigger] data.users[i]).user_id
            == uid implies data.users[i].duel_id is None by {
        assert(ids[i] == ids[pos]);
    }
}

/// The roster that a negotiation confirms can be given a match: in a
/// well-formed registry, where no candidate is named twice, the candidates
/// that play no match are available, and none of them is named twice.
pub proof fn lemma_confirmed_roster_can_host(data: DataView, initiator: u64, accepted: Seq<u64>)
    requires
        data.wf(),
        candidates(initiator, accepted).no_duplicates(),
    ensures
        data.can_host(candidates(initiator, accepted).filter(idle_pred(data))),
{
    let all = candidates(initiator, accepted);
    let roster = all.filter(idle_pred(data));
    lemma_picked_distinct(all, idle_pred(data));
    assert forall|j: int| 0 <= j < roster.len() implies data.available(#[trigger] roster[j]) by {
        lemma_idle_is_available(data, roster[j]);
    }
}

/// An acceptance keeps the accepted among the invited and without doubles.
pub proof fn lemma_acceptance(
    opponents: Seq<u64>,
    accepted: Seq<u64>,
    initiator: u64,
    author: u64,
    text: Seq<char>,
)
    requires
        accepted.no_duplicates(),
        forall|j: int| 0 <= j < accepted.len() ==> opponents.contains(#[trigger] accepted[j]),
        accepts(opponents, accepted, initiator, author, text),
    ensures
        accepted.push(author).no_duplicates(),
        forall|j: int|
            0 <= j < accepted.push(author).len() ==> opponents.contains(
                #[trigger] accepted.push(author)[j],
            ),
{
    let next = accepted.push(author);
    assert forall|a: int, b: int|
        0 <= a < next.len() && 0 <= b < next.len() && a != b implies next[a] != next[b] by {
        if a < accepted.len() && b < accepted.len() {
        } else if a < accepted.len() {
            assert(accepted.contains(accepted[a]));
        } else {
            assert(accepted.contains(accepted[b]));
        }
    }
    assert forall|j: int| 0 <= j < next.len() implies opponents.contains(#[trigger] next[j]) by {
        if j < accepted.len() {
            assert(next[j] == accepted[j]);
        }
    }
}

/// How a negotiation ends: cancelled where nobody accepted; else with the
/// candidates that play no match, if they are two at least.
pub open spec fn negotiated(data: DataView, initiator: u64, accepted: Seq<u64>) -> Result<
    Seq<u64>,
    MatchError,
> {
    let roster = candidates(initiator, accepted).filter(idle_pred(data));
    if accepted.len() == 0 {
        Err(MatchError::Cancelled)
    } else if roster.len() < 2 {
        Err(MatchError::InsufficientRoster)
    } else {
        Ok(roster)
    }
}

/// Ends a negotiation at time `now`: see [`negotiated`]. The first part of
/// the result lists the candidates that were left out because they play a
/// match, as [`confirm_user_in_match`] does.
pub fn negotiate(data: &Data, initiator: u64, accepted_users: &Vec<u64>, now: u64) -> (r: (
    Vec<Busy>,
    Result<Vec<User>, MatchError>,
))
    ensures
        match negotiated(data@, initiator, accepted_users@) {
            Ok(ids) => r.1 matches Ok(roster) && ids_of(roster.deep_view()) == ids && forall|j: int|
                0 <= j < roster.len() ==> (#[trigger] roster[j])@ == data@.record(
                    roster[j].user_id,
                ),
            Err(e) => r.1 matches Err(got) && got == e,
        },
        accepted_users.len() > 0 ==> busy_ids(r.0@) == candidates(
            initiator,
            accepted_users@,
        ).filter(engaged_pred(data@)),
        accepted_users.len() == 0 ==> r.0.len() == 0,
        forall|j: int|
            0 <= j < r.0.len() ==> (#[trigger] r.0[j]).remaining == data@.remaining_of(
                r.0[j].user_id,
                now,
            ),
{
    if accepted_users.len() == 0 {
        return (Vec::new(), Err(MatchError::Cancelled));
    }
    let confirmation = confirm_user_in_match(data, initiator, accepted_users, now);
    let Confirmation { roster, busy } = confirmation;
    if roster.len() < 2 {
        (busy, Err(MatchError::InsufficientRoster))
    } else {
        (busy, Ok(roster))
    }
}

/// The sum of the ratings that are known among the first `n`.
pub open spec fn known_sum(ratings: Seq<Option<u32>>, n: int) -> int
    decreases n,
{
    if n <= 0 {
        0
    } else {
        known_sum(ratings, n - 1) + match ratings[n - 1] {
            Some(r) => r as int,
            None => 0,
        }
    }
}

/// The number of ratings that are known among the first `n`.
pub open spec fn known_count(ratings: Seq<Option<u32>>, n: int) -> int
    decreases n,
{
    if n <= 0 {
        0
    } else {
        known_count(ratings, n - 1) + if ratings[n - 1] is Some {
            1int
        } else {
            0int
        }
    }
}

/// The rating that a roster is given problems for: the mean of the ratings
/// that are known, or [`DEFAULT_RATING`] where they sum to nothing, rounded
/// down to a multiple of 100.
pub open spec fn combined_rating(ratings: Seq<Option<u32>>) -> int {
    let sum = known_sum(ratings, ratings.len() as int);
    let count = known_count(ratings, ratings.len() as int);
    if sum == 0 {
        (DEFAULT_RATING / 100) * 100
    } else {
        ((sum / count) / 100) * 100
    }
}

proof fn lemma_known(ratings: Seq<Option<u32>>, n: int)
    requires
        0 <= n <= ratings.len(),
    ensures
        0 <= known_count(ratings, n) <= n,
        0 <= known_sum(ratings, n) <= known_count(ratings, n) * u32::MAX,
    decreases n,
{
    if n > 0 {
        lemma_known(ratings, n - 1);
        let c = known_count(ratings, n - 1);
        assert((c + 1) * u32::MAX == c * u32::MAX + u32::MAX) by (nonlinear_arith);
    }
}

/// The rating that a roster with the given ratings is given problems for,
/// a rating that could not be fetched being unknown.
pub fn average_rating(ratings: &Vec<Option<u32>>) -> (r: u32)
    ensures
        r == combined_rating(ratings@),
{
    let mut sum: u128 = 0;
    let mut count: u128 = 0;
    let mut i: usize = 0;
    while i < ratings.len()
        invariant
            i <= ratings.len(),
            sum == known_sum(ratings@, i as int),
            count == known_count(ratings@, i as int),
        decreases ratings.len() - i,
    {
        proof {
            lemma_known(ratings@, i as int);
            assert(i * u32::MAX <= usize::MAX * u32::MAX) by (nonlinear_arith)
                requires
                    i <= usize::MAX,
            ;
            let c = known_count(ratings@, i as int);
            assert(c * u32::MAX <= i * u32::MAX) by (nonlinear_arith)
                requires
                    0 <= c <= i,
            ;
        }
        match ratings[i] {
            Some(r) => {
                sum = sum + r as u128;
                count = count + 1;
            },
            None => {},
        }
        i += 1;
    }
    if sum == 0 {
        (DEFAULT_RATING as u32 / 100) * 100
    } else {
        proof {
            lemma_known(ratings@, ratings.len() as int);
            let s = sum as int;
            let c = count as int;
            assert(c > 0) by (nonlinear_arith)
                requires
                    s > 0,
                    s <= c * u32::MAX,
                    c >= 0,
            ;
            assert(s / c <= u32::MAX) by (nonlinear_arith)
                requires
                    c > 0,
                    0 <= s <= c * u32::MAX,
            ;
            assert(s / c >= 0) by (nonlinear_arith)
                requires
                    c > 0,
                    0 <= s,
            ;
        }
        let mean = (sum / count) as u32;
        (mean / 100) * 100
    }
}

/// The rating that a match is given problems for: the one that was asked
/// for, else the combined rating of the roster.
pub fn match_rating(hint: Option<u32>, ratings: &Vec<Option<u32>>) -> (r: u32)
    ensures
        r == match hint {
            Some(rating) => rating as int,
            None => combined_rating(ratings@),
        },
{
    match hint {
        Some(rating) => rating,
        None => average_rating(ratings),
    }
}

/// What a command that invites to a match asks for.
#[derive(Debug, PartialEq, Eq)]
pub enum Request {
    /// The usage of the command.
    Help,
    /// A match with the invited participants, and the option of the
    /// command where one was given.
    Invite(Vec<u64>, Option<u32>),
}

/// The first argument asks for the usage of the command.
pub open spec fn asks_help(args: Seq<Seq<char>>) -> bool {
    args.len() > 0 && (args[0] == "h"@ || args[0] == "help"@)
}

/// What the arguments of a command that invites to a match come to: the
/// usage where the first argument asks for it; else the invitation that they
/// make, which must invite somebody.
pub open spec fn requested(
    data: DataView,
    author: u64,
    args: Seq<Seq<char>>,
) -> Result<(Seq<u64>, Option<u32>), MatchError> {
    match invitation(data, author, args, true) {
        Ok(inv) => if inv.0.len() == 0 {
            Err(MatchError::NoOpponents)
        } else {
            Ok(inv)
        },
        Err(e) => Err(e),
    }
}

fn request(data: &Data, author: u64, args: &Vec<String>, help: bool) -> (r: Result<Request, MatchError>)
    ensures
        help && asks_help(arg_views(args@)) ==> r == Ok::<Request, MatchError>(Request::Help),
        !(help && asks_help(arg_views(args@))) ==> match requested(data@, author, arg_views(args@)) {
            Ok(inv) => r matches Ok(Request::Invite(opponents, option)) && opponents@ == inv.0
                && option == inv.1,
            Err(e) => r matches Err(got) && got == e,
        },
{
    if help && args.len() > 0 {
        assert(arg_views(args@)[0] == args[0]@);
        if str_eq(args[0].as_str(), "h") || str_eq(args[0].as_str(), "help") {
            return Ok(Request::Help);
        }
    }
    match handle_args(data, author, args, true) {
        Ok((opponents, option)) => {
            if opponents.len() == 0 {
                Err(MatchError::NoOpponents)
            } else {
                Ok(Request::Invite(opponents, option))
            }
        },
        Err(e) => Err(e),
    }
}

/// Reads the arguments of the duel command: see [`asks_help`] and
/// [`requested`]. The option of a duel is the rating of its problem.
pub fn duel(data: &Data, author: u64, args: &Vec<String>) -> (r: Result<Request, MatchError>)
    ensures
        asks_help(arg_views(args@)) ==> r == Ok::<Request, MatchError>(Request::Help),
        !asks_help(arg_views(args@)) ==> match requested(data@, author, arg_views(args@)) {
            Ok(inv) => r matches Ok(Request::Invite(opponents, option)) && opponents@ == inv.0
                && option == inv.1,
            Err(e) => r matches Err(got) && got == e,
        },
{
    request(data, author, args, true)
}

/// Reads the arguments of the lockout command: see [`requested`]. The
/// option 1 of a lockout says that its initiator is to be asked for what it
/// wants: see [`asks_options`].
pub fn lockout(data: &Data, author: u64, args: &Vec<String>) -> (r: Result<Request, MatchError>)
    ensures
        match requested(data@, author, arg_views(args@)) {
            Ok(inv) => r matches Ok(Request::Invite(opponents, option)) && opponents@ == inv.0
                && option == inv.1,
            Err(e) => r matches Err(got) && got == e,
        },
{
    request(data, author, args, false)
}

/// Whether the option of a lockout command says that the initiator is to
/// be asked for the options of the lockout.
pub fn asks_options(option: Option<u32>) -> (b: bool)
    ensures
        b == (option == Some(1u32)),
{
    match option {
        Some(v) => v == 1,
        None => false,
    }
}
} // verus!
