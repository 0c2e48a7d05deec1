//! What happens to stored configurations: old ones are brought up to date,
//! interrupted imports are settled, and copies are kept for a while.

use crate::collections::{lists, Duplicate, StringSet};
use crate::config::{copy_list, lemma_seen_push, seen, RequestView, ShareConfig, ShareRequest, ShareView};
use crate::device::{
    legacy_left, ConfigView, DeviceConfig, DeviceError, DeviceFault, CURRENT_DEVICE_VERSION,
};
use crate::ignore::{covers, ignored, patterns_of};
use crate::model::{is_hash, lemma_no_separator, lemma_pieces_concat, valid_hash};
use crate::primitives::{hex_encode, hex_text, sha256, sha256_of};
use crate::text::{
    chars_of, decimal, ends, lemma_pieces_shape, lemma_trimmed, lemma_trimmed_tail,
    lemma_views_push, lines, lines_of, number, pieces, same, strip_suffix, trim, trimmed, views,
    white, without_return, Chars,
};
use vstd::prelude::*;

verus! {

/// The field by which old configurations told their requests apart.
pub enum StateField {
    Absent,
    /// Something that is no text.
    Other,
    Text(String),
}

/// A request as old configurations stored it.
pub struct StoredRequest {
    pub request: ShareRequest,
    pub state: StateField,
}

/// A [`StoredRequest`] as a mathematical value: the request, what its field
/// says, and whether it had one.
#[verifier::ext_equal]
pub struct StoredView {
    pub request: RequestView,
    pub state: Chars,
    pub marked: bool,
}

impl View for StoredRequest {
    type V = StoredView;

    open spec fn view(&self) -> StoredView {
        StoredView {
            request: self.request@,
            state: match self.state {
                StateField::Text(text) => text@,
                _ => "pending"@,
            },
            marked: !(self.state is Absent),
        }
    }
}

/// The requests whose field says `word`.
pub open spec fn having(requests: Seq<StoredView>, word: Chars) -> Seq<RequestView>
    decreases requests.len(),
{
    if requests.len() == 0 {
        Seq::empty()
    } else {
        let rest = having(requests.drop_last(), word);
        if requests.last().state == word {
            rest.push(requests.last().request)
        } else {
            rest
        }
    }
}

/// Every request is open or rejected.
pub open spec fn unambiguous(requests: Seq<StoredView>) -> bool {
    forall|i: int|
        0 <= i < requests.len() ==> (#[trigger] requests[i]).state == "pending"@
            || requests[i].state == "rejected"@
}

/// Some request had the old field.
pub open spec fn any_marked(requests: Seq<StoredView>) -> bool {
    exists|i: int| 0 <= i < requests.len() && (#[trigger] requests[i]).marked
}

/// The requests, whatever their field says.
pub open spec fn plain_requests(requests: Seq<StoredView>) -> Seq<RequestView> {
    requests.map_values(|r: StoredView| r.request)
}

/// The open requests, the rejected ones, and whether the old field was there.
pub fn sort_requests(requests: &Vec<StoredRequest>, rejected: &Vec<ShareRequest>) -> (r: Result<
    (Vec<ShareRequest>, Vec<ShareRequest>, bool),
    DeviceError,
>)
    ensures
        r is Ok <==> unambiguous(seen(requests@)),
        r is Ok ==> seen(r->Ok_0.0@) == having(seen(requests@), "pending"@) && seen(r->Ok_0.1@)
            == seen(rejected@) + having(seen(requests@), "rejected"@) && r->Ok_0.2 == any_marked(
            seen(requests@),
        ),
        r is Err ==> r->Err_0@ == DeviceFault::AmbiguousRequest,
{
    let ghost all = seen(requests@);
    let mut open: Vec<ShareRequest> = Vec::new();
    let mut rejects: Vec<ShareRequest> = copy_list(rejected);
    let mut marked = false;
    let mut i: usize = 0;
    proof {
        reveal_strlit("pending");
        reveal_strlit("rejected");
        assert("pending"@.len() != "rejected"@.len());
        assert(all.take(0) =~= Seq::<StoredView>::empty());
        assert(seen(open@) =~= Seq::<RequestView>::empty());
        assert(seen(rejects@) =~= seen(rejected@) + Seq::<RequestView>::empty());
    }
    while i < requests.len()
        invariant
            i <= requests@.len(),
            all == seen(requests@),
            "pending"@.len() != "rejected"@.len(),
            forall|k: int|
                0 <= k < i ==> (#[trigger] all[k]).state == "pending"@ || all[k].state
                    == "rejected"@,
            seen(open@) == having(all.take(i as int), "pending"@),
            seen(rejects@) == seen(rejected@) + having(all.take(i as int), "rejected"@),
            marked == any_marked(all.take(i as int)),
        decreases requests@.len() - i,
    {
        let stored = &requests[i];
        let ghost was = all.take(i as int);
        let ghost more = all.take(i + 1);
        proof {
            assert(more.drop_last() =~= was);
            assert(more.last() == stored@);
            assert(all[i as int] == stored@);
        }
        let request = stored.request.duplicate();
        let mut refused = false;
        match &stored.state {
            StateField::Absent => {},
            StateField::Other => {
                marked = true;
            },
            StateField::Text(text) => {
                marked = true;
                if same(text.as_str(), "rejected") {
                    refused = true;
                } else if !same(text.as_str(), "pending") {
                    assert(!unambiguous(all));
                    return Err(DeviceError::AmbiguousRequest);
                }
            },
        }
        proof {
            assert(any_marked(more) == (any_marked(was) || stored@.marked)) by {
                if any_marked(was) {
                    let k = choose|k: int| 0 <= k < was.len() && (#[trigger] was[k]).marked;
                    assert(more[k].marked);
                }
                if stored@.marked {
                    assert(more[i as int].marked);
                }
                if any_marked(more) {
                    let k = choose|k: int| 0 <= k < more.len() && (#[trigger] more[k]).marked;
                    if k < i {
                        assert(was[k].marked);
                    }
                }
            }
        }
        if refused {
            proof {
                lemma_seen_push(rejects@, request);
                assert(seen(rejects@).push(request@) =~= seen(rejected@) + having(
                    more,
                    "rejected"@,
                ));
            }
            rejects.push(request);
        } else {
            proof {
                lemma_seen_push(open@, request);
            }
            open.push(request);
        }
        i = i + 1;
    }
    assert(all.take(i as int) =~= all);
    Ok((open, rejects, marked))
}

/// A Share brought up to date; `reachable` says whether its folder is there.
pub open spec fn renewed(s: ShareView, reachable: bool) -> ShareView {
    ShareView {
        binding_revision: if s.remap_policy is Some && s.binding_revision == 0 {
            1
        } else {
            s.binding_revision
        },
        legacy_ignore: if s.legacy_ignore.len() > 0 && reachable {
            Seq::empty()
        } else {
            s.legacy_ignore
        },
        ..s
    }
}

/// All Shares brought up to date.
pub open spec fn all_renewed(shares: Seq<ShareView>, reachable: Seq<bool>) -> Seq<ShareView> {
    Seq::new(shares.len(), |i: int| renewed(shares[i], reachable[i]))
}

/// Ignore rules that move into their folder.
#[derive(Clone, Debug)]
pub struct IgnoreMove {
    pub root: String,
    pub rules: String,
}

/// Ignore rules that move into their folder, in the order of the Shares.
pub open spec fn moves(shares: Seq<ShareView>, reachable: Seq<bool>) -> Seq<(Chars, Chars)>
    decreases shares.len(),
{
    if shares.len() == 0 {
        Seq::empty()
    } else {
        let rest = moves(shares.drop_last(), reachable);
        let last = shares.last();
        if last.legacy_ignore.len() > 0 && reachable[shares.len() - 1] {
            rest.push((last.root, last.legacy_ignore))
        } else {
            rest
        }
    }
}

/// A list of moves as a mathematical value.
pub open spec fn moves_seen(v: Seq<IgnoreMove>) -> Seq<(Chars, Chars)> {
    v.map_values(|m: IgnoreMove| (m.root@, m.rules@))
}

/// A configuration as it is used, and what is to be done before.
pub struct Loaded {
    pub config: DeviceConfig,
    /// Rules that are to be written into their folders first.
    pub moves: Vec<IgnoreMove>,
    /// The label under which the old configuration is kept, where the new one
    /// is to be written.
    pub label: Option<String>,
}

/// The versions that can be read.
pub open spec fn known_version(version: u32) -> bool {
    2 <= version <= CURRENT_DEVICE_VERSION
}

/// The configuration that a stored one becomes.
pub open spec fn updated(
    c: ConfigView,
    requests: Seq<StoredView>,
    reachable: Seq<bool>,
) -> ConfigView {
    let shares = all_renewed(c.shares, reachable);
    ConfigView {
        version: if legacy_left(shares) {
            c.version
        } else {
            CURRENT_DEVICE_VERSION
        },
        shares,
        share_requests: if c.version <= 7 {
            having(requests, "pending"@)
        } else {
            plain_requests(requests)
        },
        rejected_requests: if c.version <= 7 {
            c.rejected_requests + having(requests, "rejected"@)
        } else {
            c.rejected_requests
        },
        ..c
    }
}

/// Whether bringing a configuration up to date changes it.
pub open spec fn outdated(c: ConfigView, requests: Seq<StoredView>, reachable: Seq<bool>) -> bool {
    ||| c.version <= 7 && any_marked(requests)
    ||| exists|i: int|
        0 <= i < c.shares.len() && renewed(#[trigger] c.shares[i], reachable[i]) != c.shares[i]
    ||| c.version != CURRENT_DEVICE_VERSION && !legacy_left(all_renewed(c.shares, reachable))
}

impl DeviceConfig {
    /// Brings a stored configuration up to date. The requests come apart from
    /// it, as they are stored; `reachable` says of each Share whether its
    /// folder is there.
    pub fn load(stored: DeviceConfig, requests: &Vec<StoredRequest>, reachable: &Vec<bool>) -> (r:
        Result<Loaded, DeviceError>)
        requires
            reachable@.len() == stored.shares@.len(),
        ensures
            match r {
                Ok(loaded) => known_version(stored.version) && (stored.version <= 7 ==> unambiguous(
                    seen(requests@),
                )) && loaded.config@ == updated(stored@, seen(requests@), reachable@)
                    && moves_seen(loaded.moves@) == moves(stored@.shares, reachable@) && (
                loaded.label is Some <==> outdated(stored@, seen(requests@), reachable@)) && (
                loaded.label is Some ==> loaded.label->0@ == "migration-v"@ + decimal(
                    stored.version as nat,
                )),
                Err(e) => if stored.version <= 7 && !unambiguous(seen(requests@)) {
                    e@ == DeviceFault::AmbiguousRequest
                } else {
                    !known_version(stored.version) && e@ == DeviceFault::UnsupportedVersion(
                        stored.version,
                    )
                },
            },
    {
        let mut config = stored;
        let version: u32 = config.version;
        let mut changed = false;
        if version <= 7 {
            match sort_requests(requests, &config.rejected_requests) {
                Err(e) => {
                    return Err(e);
                },
                Ok((open, refused, marked)) => {
                    config.share_requests = open;
                    config.rejected_requests = refused;
                    changed = marked;
                },
            }
        } else {
            config.share_requests = plain(requests);
        }
        if version < 2 || version > CURRENT_DEVICE_VERSION {
            return Err(DeviceError::UnsupportedVersion(version));
        }
        let (shares, moved, renewed_any) = renew(&config.shares, reachable);
        config.shares = shares;
        changed = changed || renewed_any;
        if !left_over(&config.shares) {
            config.version = CURRENT_DEVICE_VERSION;
            changed = changed || version != CURRENT_DEVICE_VERSION;
        }
        assert(config@ =~= updated(stored@, seen(requests@), reachable@));
        let label = if changed {
            let mut text = "migration-v".to_string();
            let n = number(version as u64);
            text.append(n.as_str());
            Some(text)
        } else {
            None
        };
        Ok(Loaded { config, moves: moved, label })
    }
}

fn left_over(shares: &Vec<ShareConfig>) -> (r: bool)
    ensures
        r == legacy_left(seen(shares@)),
{
    let mut i: usize = 0;
    while i < shares.len()
        invariant
            i <= shares@.len(),
            forall|k: int| 0 <= k < i ==> (#[trigger] seen(shares@)[k]).legacy_ignore.len() == 0,
        decreases shares@.len() - i,
    {
        assert(seen(shares@)[i as int] == shares@[i as int]@);
        if shares[i].legacy_ignore.as_str().unicode_len() > 0 {
            return true;
        }
        i = i + 1;
    }
    false
}

fn plain(requests: &Vec<StoredRequest>) -> (r: Vec<ShareRequest>)
    ensures
        seen(r@) == plain_requests(seen(requests@)),
{
    let ghost all = plain_requests(seen(requests@));
    let mut r: Vec<ShareRequest> = Vec::new();
    let mut i: usize = 0;
    assert(seen(r@) =~= all.take(0));
    while i < requests.len()
        invariant
            i <= requests@.len(),
            all == plain_requests(seen(requests@)),
            seen(r@) == all.take(i as int),
        decreases requests@.len() - i,
    {
        let request = requests[i].request.duplicate();
        proof {
            lemma_seen_push(r@, request);
            assert(all.take(i + 1) =~= all.take(i as int).push(all[i as int]));
        }
        r.push(request);
        i = i + 1;
    }
    assert(all.take(i as int) =~= all);
    r
}

fn renew(shares: &Vec<ShareConfig>, reachable: &Vec<bool>) -> (r: (
    Vec<ShareConfig>,
    Vec<IgnoreMove>,
    bool,
))
    requires
        reachable@.len() == shares@.len(),
    ensures
        seen(r.0@) == all_renewed(seen(shares@), reachable@),
        moves_seen(r.1@) == moves(seen(shares@), reachable@),
        r.2 <==> exists|i: int|
            0 <= i < shares@.len() && renewed(#[trigger] seen(shares@)[i], reachable@[i]) != seen(
                shares@,
            )[i],
{
    let ghost all = seen(shares@);
    let ghost fresh = all_renewed(all, reachable@);
    let mut out: Vec<ShareConfig> = Vec::new();
    let mut moved: Vec<IgnoreMove> = Vec::new();
    let mut changed = false;
    let mut i: usize = 0;
    proof {
        assert(seen(out@) =~= fresh.take(0));
        assert(moves_seen(moved@) =~= Seq::<(Chars, Chars)>::empty());
        assert(all.take(0) =~= Seq::<ShareView>::empty());
    }
    while i < shares.len()
        invariant
            i <= shares@.len() == reachable@.len(),
            all == seen(shares@),
            fresh == all_renewed(all, reachable@),
            seen(out@) == fresh.take(i as int),
            moves_seen(moved@) == moves(all.take(i as int), reachable@),
            changed <==> exists|k: int|
                0 <= k < i && renewed(#[trigger] all[k], reachable@[k]) != all[k],
        decreases shares@.len() - i,
    {
        let mut share = shares[i].duplicate();
        let ghost was = share@;
        let mut touched = false;
        if share.remap_policy.is_some() && share.binding_revision == 0 {
            share.binding_revision = 1;
            touched = true;
        }
        proof {
            assert(all[i as int] == was);
            assert(all.take(i + 1).drop_last() =~= all.take(i as int));
            assert(all.take(i + 1).last() == was);
        }
        if share.legacy_ignore.as_str().unicode_len() > 0 && reachable[i] {
            let mut rules = String::new();
            std::mem::swap(&mut rules, &mut share.legacy_ignore);
            let item = IgnoreMove { root: share.root.clone(), rules };
            assert(moves_seen(moved@.push(item)) =~= moves_seen(moved@).push(
                (was.root, was.legacy_ignore),
            ));
            moved.push(item);
            touched = true;
            assert(share@.legacy_ignore =~= Seq::<char>::empty());
        }
        proof {
            assert(share@ =~= renewed(was, reachable@[i as int]));
            assert(touched <==> renewed(was, reachable@[i as int]) != was) by {
                if was.legacy_ignore.len() > 0 && reachable@[i as int] {
                    assert(renewed(was, reachable@[i as int]).legacy_ignore.len() == 0);
                }
            }
            lemma_seen_push(out@, share);
            assert(fresh.take(i + 1) =~= fresh.take(i as int).push(fresh[i as int]));
        }
        out.push(share);
        changed = changed || touched;
        i = i + 1;
    }
    proof {
        assert(fresh.take(i as int) =~= fresh);
        assert(all.take(i as int) =~= all);
    }
    (out, moved, changed)
}

/// Bringing a configuration up to date is done once: what it has become needs
/// no change as long as the same folders are there.
pub proof fn law_update_once(c: ConfigView, requests: Seq<StoredView>, reachable: Seq<bool>)
    requires
        known_version(c.version),
        reachable.len() == c.shares.len(),
        c.version <= 7 ==> unambiguous(requests),
    ensures
        ({
            let u = updated(c, requests, reachable);
            let stored = Seq::new(
                u.share_requests.len(),
                |i: int|
                    StoredView {
                        request: u.share_requests[i],
                        state: "pending"@,
                        marked: false,
                    },
            );
            &&& !outdated(u, stored, reachable)
            &&& updated(u, stored, reachable).shares == u.shares
        }),
{
    let u = updated(c, requests, reachable);
    let twice = all_renewed(u.shares, reachable);
    assert forall|i: int| 0 <= i < u.shares.len() implies renewed(
        #[trigger] u.shares[i],
        reachable[i],
    ) == u.shares[i] by {
        assert(u.shares[i] == renewed(c.shares[i], reachable[i]));
        assert(renewed(u.shares[i], reachable[i]) =~= u.shares[i]);
    }
    assert(twice =~= u.shares);
}

/// The lines of a policy without the white space around them.
pub open spec fn bare_lines(text: Chars) -> Seq<Chars> {
    lines_of(text).map_values(|l: Chars| trimmed(l))
}

/// A policy with one more rule, on a line of its own.
pub open spec fn extended(text: Chars, rule: Chars) -> Chars {
    let ended = if text.len() > 0 && text.last() != '\n' {
        text.push('\n')
    } else {
        text
    };
    (ended + rule).push('\n')
}

/// A policy with the rules that it does not hold yet, in order.
pub open spec fn merged(text: Chars, rules: Seq<Chars>) -> Chars
    decreases rules.len(),
{
    if rules.len() == 0 {
        text
    } else {
        let before = merged(text, rules.drop_last());
        if bare_lines(before).contains(rules.last()) {
            before
        } else {
            extended(before, rules.last())
        }
    }
}

/// A rule: one line, some text, no white space around it.
pub open spec fn is_rule(r: Chars) -> bool {
    r.len() > 0 && trimmed(r) == r && !r.contains('\n')
}

proof fn lemma_return_is_white(l: Chars)
    ensures
        trimmed(without_return(l)) == trimmed(l),
{
    if l.len() > 0 && l.last() == '\r' {
        lemma_trimmed_tail(l);
    }
}

proof fn lemma_line(rule: Chars)
    requires
        is_rule(rule),
    ensures
        pieces(rule.push('\n'), '\n') == seq![rule, Seq::<char>::empty()],
        without_return(rule) == rule,
{
    assert forall|i: int| 0 <= i < rule.len() implies rule[i] != '\n' by {
        assert(rule.contains(rule[i]));
    }
    lemma_no_separator(rule, '\n');
    assert(rule.push('\n').drop_last() =~= rule);
    assert(pieces(rule.push('\n'), '\n') =~= seq![rule, Seq::<char>::empty()]);
    lemma_trimmed(rule);
    assert(!white(rule.last()));
}

/// A rule that is added is one more line.
proof fn lemma_extended(text: Chars, rule: Chars)
    requires
        is_rule(rule),
    ensures
        bare_lines(extended(text, rule)) == bare_lines(text).push(rule),
{
    lemma_line(rule);
    lemma_pieces_shape(text, '\n');
    let tail = rule.push('\n');
    let all = extended(text, rule);
    let p = pieces(text, '\n');
    let f = |l: Chars| without_return(l);
    let nothing = Seq::<char>::empty();
    if text.len() == 0 {
        assert(all =~= tail);
        assert(p =~= seq![nothing]);
        assert(pieces(all, '\n').drop_last() =~= seq![rule]);
        assert(lines_of(all) =~= seq![rule]);
        assert(lines_of(text) =~= Seq::<Chars>::empty());
        assert(bare_lines(all) =~= bare_lines(text).push(rule));
    } else if text.last() == '\n' {
        let body = text.drop_last();
        let q = pieces(body, '\n');
        lemma_pieces_concat(body, tail, '\n');
        assert(all =~= body + seq!['\n'] + tail);
        assert(pieces(all, '\n') =~= q + seq![rule, nothing]);
        assert(p =~= q.push(nothing));
        assert(p.drop_last() =~= q);
        assert(pieces(all, '\n').drop_last() =~= q.push(rule));
        assert(lines_of(all) =~= q.map_values(f).push(rule));
        assert(lines_of(text) =~= q.map_values(f));
        assert(bare_lines(all) =~= bare_lines(text).push(rule));
    } else {
        lemma_pieces_concat(text, tail, '\n');
        assert(all =~= text + seq!['\n'] + tail);
        assert(pieces(all, '\n') =~= p + seq![rule, nothing]);
        assert(pieces(all, '\n').drop_last() =~= p.push(rule));
        assert(p.last().len() > 0);
        assert(lines_of(all) =~= p.map_values(f).push(rule));
        assert(lines_of(text) =~= p.drop_last().map_values(f).push(p.last()));
        assert forall|i: int| 0 <= i < p.len() implies #[trigger] bare_lines(all)[i] == bare_lines(
            text,
        )[i] by {
            assert(lines_of(all)[i] == without_return(p[i]));
            lemma_return_is_white(p[i]);
        }
        assert(bare_lines(all) =~= bare_lines(text).push(rule));
    }
}

proof fn lemma_patterns_are_rules(ls: Seq<Chars>)
    requires
        forall|i: int| 0 <= i < ls.len() ==> !(#[trigger] ls[i]).contains('\n'),
    ensures
        forall|i: int| 0 <= i < patterns_of(ls).len() ==> is_rule(#[trigger] patterns_of(ls)[i]),
    decreases ls.len(),
{
    if ls.len() > 0 {
        let less = ls.drop_last();
        assert forall|i: int| 0 <= i < less.len() implies !(#[trigger] less[i]).contains('\n') by {
            assert(less[i] == ls[i]);
        }
        lemma_patterns_are_rules(less);
        lemma_trimmed(ls.last());
        assert(!ls[ls.len() - 1].contains('\n'));
        let all = patterns_of(ls);
        assert forall|i: int| 0 <= i < all.len() implies is_rule(#[trigger] all[i]) by {
            if i < patterns_of(less).len() {
                assert(all[i] == patterns_of(less)[i]);
            }
        }
    }
}

/// The patterns of a policy are rules.
proof fn lemma_rules(text: Chars)
    ensures
        forall|i: int|
            0 <= i < patterns_of(lines_of(text)).len() ==> is_rule(
                #[trigger] patterns_of(lines_of(text))[i],
            ),
{
    lemma_pieces_shape(text, '\n');
    let p = pieces(text, '\n');
    let ls = lines_of(text);
    assert forall|i: int| 0 <= i < ls.len() implies !(#[trigger] ls[i]).contains('\n') by {
        assert(!p[i].contains('\n'));
        if i < p.len() - 1 && p[i].len() > 0 && p[i].last() == '\r' {
            if ls[i].contains('\n') {
                let k = choose|k: int| 0 <= k < ls[i].len() && ls[i][k] == '\n';
                assert(p[i][k] == '\n');
            }
        }
    }
    lemma_patterns_are_rules(ls);
}

proof fn lemma_merged_holds(text: Chars, rules: Seq<Chars>)
    requires
        forall|i: int| 0 <= i < rules.len() ==> is_rule(#[trigger] rules[i]),
    ensures
        forall|x: Chars| #[trigger]
            bare_lines(merged(text, rules)).contains(x) <==> bare_lines(text).contains(x)
                || rules.contains(x),
    decreases rules.len(),
{
    if rules.len() > 0 {
        let less = rules.drop_last();
        let last = rules.last();
        assert forall|i: int| 0 <= i < less.len() implies is_rule(#[trigger] less[i]) by {
            assert(less[i] == rules[i]);
        }
        lemma_merged_holds(text, less);
        let before = merged(text, less);
        assert(is_rule(rules[rules.len() - 1]));
        assert forall|x: Chars| #[trigger]
            bare_lines(merged(text, rules)).contains(x) <==> bare_lines(text).contains(x)
                || rules.contains(x) by {
            assert(rules.contains(x) <==> less.contains(x) || x == last) by {
                if less.contains(x) {
                    let k = choose|k: int| 0 <= k < less.len() && less[k] == x;
                    assert(rules[k] == x);
                }
                if x == last {
                    assert(rules[rules.len() - 1] == x);
                }
                if rules.contains(x) && x != last {
                    let k = choose|k: int| 0 <= k < rules.len() && rules[k] == x;
                    assert(less[k] == x);
                }
            }
            if !bare_lines(before).contains(last) {
                lemma_extended(before, last);
                let was = bare_lines(before);
                let now = bare_lines(extended(before, last));
                assert(now.contains(x) <==> was.contains(x) || x == last) by {
                    if was.contains(x) {
                        let k = choose|k: int| 0 <= k < was.len() && was[k] == x;
                        assert(now[k] == x);
                    }
                    if x == last {
                        assert(now[was.len() as int] == x);
                    }
                    if now.contains(x) && x != last {
                        let k = choose|k: int| 0 <= k < now.len() && now[k] == x;
                        assert(was[k] == x);
                    }
                }
            }
        }
    }
}

proof fn lemma_merged_nothing_new(text: Chars, rules: Seq<Chars>)
    requires
        forall|i: int| 0 <= i < rules.len() ==> bare_lines(text).contains(#[trigger] rules[i]),
    ensures
        merged(text, rules) == text,
    decreases rules.len(),
{
    if rules.len() > 0 {
        let less = rules.drop_last();
        assert forall|i: int| 0 <= i < less.len() implies bare_lines(text).contains(
            #[trigger] less[i],
        ) by {
            assert(less[i] == rules[i]);
        }
        lemma_merged_nothing_new(text, less);
        assert(bare_lines(text).contains(rules[rules.len() - 1]));
    }
}

/// Moving rules into a folder's policy may be repeated: after a crash between
/// the policy and the configuration, the second time changes nothing. No rule
/// of either side is lost, and none is made up.
pub proof fn law_merge_once(text: Chars, legacy: Chars)
    ensures
        ({
            let rules = patterns_of(lines_of(legacy));
            let once = merged(text, rules);
            &&& merged(once, rules) == once
            &&& forall|x: Chars| #[trigger]
                bare_lines(once).contains(x) <==> bare_lines(text).contains(x) || rules.contains(x)
        }),
{
    let rules = patterns_of(lines_of(legacy));
    lemma_rules(legacy);
    lemma_merged_holds(text, rules);
    let once = merged(text, rules);
    assert forall|i: int| 0 <= i < rules.len() implies bare_lines(once).contains(
        #[trigger] rules[i],
    ) by {
        assert(rules.contains(rules[i]));
    }
    lemma_merged_nothing_new(once, rules);
}

/// Whether a line ends in a carriage return makes no pattern of it another one.
proof fn lemma_patterns_of_ended(ls: Seq<Chars>)
    ensures
        patterns_of(ls.map_values(|l: Chars| without_return(l))) == patterns_of(ls),
    decreases ls.len(),
{
    let bare = ls.map_values(|l: Chars| without_return(l));
    if ls.len() > 0 {
        lemma_patterns_of_ended(ls.drop_last());
        assert(bare.drop_last() =~= ls.drop_last().map_values(|l: Chars| without_return(l)));
        lemma_return_is_white(ls.last());
    }
}

/// The patterns of a text are those of the pieces between its line feeds.
proof fn lemma_patterns_of_pieces(text: Chars)
    ensures
        patterns_of(lines_of(text)) == patterns_of(pieces(text, '\n')),
{
    lemma_pieces_shape(text, '\n');
    let p = pieces(text, '\n');
    let ended = p.drop_last().map_values(|l: Chars| without_return(l));
    lemma_patterns_of_ended(p.drop_last());
    if p.last().len() == 0 {
        assert(trimmed(p.last()).len() == 0) by {
            lemma_trimmed(p.last());
        }
    } else {
        assert(ended.push(p.last()).drop_last() =~= ended);
    }
}

proof fn lemma_patterns_concat(a: Seq<Chars>, b: Seq<Chars>)
    ensures
        patterns_of(a + b) == patterns_of(a) + patterns_of(b),
    decreases b.len(),
{
    if b.len() == 0 {
        assert(a + b =~= a);
        assert(patterns_of(a) + patterns_of(b) =~= patterns_of(a));
    } else {
        lemma_patterns_concat(a, b.drop_last());
        assert((a + b).drop_last() =~= a + b.drop_last());
        assert((a + b).last() == b.last());
        let line = trimmed(b.last());
        assert(patterns_of(a) + patterns_of(b.drop_last()).push(line) =~= (patterns_of(a)
            + patterns_of(b.drop_last())).push(line));
    }
}

/// Reading two policies joined by a line feed gives the patterns of the first
/// and then those of the second.
pub proof fn law_joined_policies_unite(first: Chars, second: Chars)
    ensures
        patterns_of(lines_of(first + seq!['\n'] + second)) == patterns_of(lines_of(first))
            + patterns_of(lines_of(second)),
{
    lemma_pieces_concat(first, second, '\n');
    lemma_patterns_of_pieces(first + seq!['\n'] + second);
    lemma_patterns_of_pieces(first);
    lemma_patterns_of_pieces(second);
    lemma_patterns_concat(pieces(first, '\n'), pieces(second, '\n'));
}

/// The patterns of a text are the rules among its lines.
proof fn lemma_patterns_among(ls: Seq<Chars>, x: Chars)
    ensures
        patterns_of(ls).contains(x) <==> x.len() > 0 && x[0] != '#' && exists|i: int|
            0 <= i < ls.len() && trimmed(#[trigger] ls[i]) == x,
    decreases ls.len(),
{
    if ls.len() > 0 {
        let less = ls.drop_last();
        let rest = patterns_of(less);
        let all = patterns_of(ls);
        let n = ls.len() - 1;
        lemma_patterns_among(less, x);
        if rest.contains(x) {
            let i = choose|i: int| 0 <= i < less.len() && trimmed(#[trigger] less[i]) == x;
            assert(ls[i] == less[i]);
            let k = choose|k: int| 0 <= k < rest.len() && rest[k] == x;
            assert(all[k] == x);
        }
        if all.contains(x) && !rest.contains(x) {
            let k = choose|k: int| 0 <= k < all.len() && all[k] == x;
            assert(k == rest.len()) by {
                if k < rest.len() {
                    assert(rest[k] == x);
                }
            }
            assert(trimmed(ls[n]) == x);
        }
        if x.len() > 0 && x[0] != '#' && exists|i: int|
            0 <= i < ls.len() && trimmed(#[trigger] ls[i]) == x {
            let i = choose|i: int| 0 <= i < ls.len() && trimmed(#[trigger] ls[i]) == x;
            if i < n {
                assert(less[i] == ls[i]);
                assert(rest.contains(x));
            } else {
                assert(all[rest.len() as int] == x);
            }
        }
    }
}

proof fn lemma_bare_among(text: Chars, x: Chars)
    ensures
        bare_lines(text).contains(x) <==> exists|i: int|
            0 <= i < lines_of(text).len() && trimmed(#[trigger] lines_of(text)[i]) == x,
{
    let ls = lines_of(text);
    if bare_lines(text).contains(x) {
        let k = choose|k: int| 0 <= k < bare_lines(text).len() && bare_lines(text)[k] == x;
        assert(trimmed(ls[k]) == x);
    }
    if exists|i: int| 0 <= i < ls.len() && trimmed(#[trigger] ls[i]) == x {
        let i = choose|i: int| 0 <= i < ls.len() && trimmed(#[trigger] ls[i]) == x;
        assert(bare_lines(text)[i] == x);
    }
}

/// A policy into which rules were moved has the patterns of both, and leaves
/// alone what either left alone.
pub proof fn law_merge_unites(text: Chars, legacy: Chars, path: Chars, directory: bool)
    ensures
        ({
            let now = patterns_of(lines_of(merged(text, patterns_of(lines_of(legacy)))));
            let was = patterns_of(lines_of(text));
            let rules = patterns_of(lines_of(legacy));
            &&& forall|x: Chars| #[trigger]
                now.contains(x) <==> was.contains(x) || rules.contains(x)
            &&& ignored(now, path, directory) == (ignored(was, path, directory) || ignored(
                rules,
                path,
                directory,
            ))
        }),
{
    let rules = patterns_of(lines_of(legacy));
    let once = merged(text, rules);
    let now = patterns_of(lines_of(once));
    let was = patterns_of(lines_of(text));
    law_merge_once(text, legacy);
    assert forall|x: Chars| #[trigger] now.contains(x) <==> was.contains(x) || rules.contains(x) by {
        lemma_patterns_among(lines_of(once), x);
        lemma_patterns_among(lines_of(text), x);
        lemma_patterns_among(lines_of(legacy), x);
        lemma_bare_among(once, x);
        lemma_bare_among(text, x);
        assert(bare_lines(once).contains(x) <==> bare_lines(text).contains(x) || rules.contains(x));
    }
    assert forall|i: int| 0 <= i < now.len() && covers(#[trigger] now[i], path, directory) implies (
    ignored(was, path, directory) || ignored(rules, path, directory)) by {
        assert(now.contains(now[i]));
        if was.contains(now[i]) {
            let k = choose|k: int| 0 <= k < was.len() && was[k] == now[i];
            assert(covers(was[k], path, directory));
        } else {
            let k = choose|k: int| 0 <= k < rules.len() && rules[k] == now[i];
            assert(covers(rules[k], path, directory));
        }
    }
    assert forall|i: int| 0 <= i < was.len() && covers(#[trigger] was[i], path, directory) implies
        ignored(now, path, directory) by {
        assert(was.contains(was[i]));
        assert(now.contains(was[i]));
        let k = choose|k: int| 0 <= k < now.len() && now[k] == was[i];
        assert(covers(now[k], path, directory));
    }
    assert forall|i: int| 0 <= i < rules.len() && covers(#[trigger] rules[i], path, directory) implies
        ignored(now, path, directory) by {
        assert(rules.contains(rules[i]));
        assert(now.contains(rules[i]));
        let k = choose|k: int| 0 <= k < now.len() && now[k] == rules[i];
        assert(covers(now[k], path, directory));
    }
}

fn trimmed_rules(text: &str) -> (r: Vec<String>)
    ensures
        views(r@) == patterns_of(lines_of(text@)),
{
    let ls = lines(text);
    let mut r: Vec<String> = Vec::new();
    let mut i: usize = 0;
    assert(views(r@) =~= Seq::<Chars>::empty());
    assert(views(ls@).take(0) =~= Seq::<Chars>::empty());
    while i < ls.len()
        invariant
            i <= ls@.len(),
            views(r@) == patterns_of(views(ls@).take(i as int)),
        decreases ls@.len() - i,
    {
        let rule = trim(ls[i].as_str());
        proof {
            let more = views(ls@).take(i + 1);
            assert(more.drop_last() =~= views(ls@).take(i as int));
            assert(more.last() == ls@[i as int]@);
        }
        if rule.as_str().unicode_len() > 0 && rule.as_str().get_char(0) != '#' {
            proof {
                lemma_views_push(r@, rule);
            }
            r.push(rule);
        }
        i = i + 1;
    }
    assert(views(ls@).take(i as int) =~= views(ls@));
    r
}

fn known_lines(text: &str) -> (r: StringSet)
    ensures
        forall|x: Chars| #[trigger] r@.contains(x) <==> bare_lines(text@).contains(x),
{
    let ls = lines(text);
    let ghost bare = bare_lines(text@);
    let mut r = StringSet::new();
    let mut i: usize = 0;
    while i < ls.len()
        invariant
            i <= ls@.len(),
            views(ls@) == lines_of(text@),
            bare == bare_lines(text@),
            forall|x: Chars| #[trigger] r@.contains(x) <==> bare.take(i as int).contains(x),
        decreases ls@.len() - i,
    {
        let line = trim(ls[i].as_str());
        assert(lines_of(text@)[i as int] == ls@[i as int]@);
        assert(bare[i as int] == line@);
        let ghost was = r@;
        let ghost word = line@;
        r.insert(line);
        assert forall|x: Chars| #[trigger] r@.contains(x) <==> bare.take(i + 1).contains(x) by {
            let less = bare.take(i as int);
            let more = bare.take(i + 1);
            if less.contains(x) {
                let k = choose|k: int| 0 <= k < less.len() && less[k] == x;
                assert(more[k] == x);
            }
            if more.contains(x) {
                let k = choose|k: int| 0 <= k < more.len() && more[k] == x;
                if k < i {
                    assert(less[k] == x);
                }
            }
            assert(more[i as int] == word);
            assert(was.contains(x) <==> less.contains(x));
        }
        i = i + 1;
    }
    assert(bare.take(i as int) =~= bare);
    r
}

/// A folder's policy with rules that were kept elsewhere.
pub fn migrate_legacy_ignore(current: &str, legacy: &str) -> (r: String)
    ensures
        r@ == merged(current@, patterns_of(lines_of(legacy@))),
{
    let rules = trimmed_rules(legacy);
    let ghost all = patterns_of(lines_of(legacy@));
    proof {
        lemma_rules(legacy@);
    }
    let mut known = known_lines(current);
    let mut chars = chars_of(current);
    let mut i: usize = 0;
    assert(all.take(0) =~= Seq::<Chars>::empty());
    while i < rules.len()
        invariant
            i <= rules@.len(),
            views(rules@) == all,
            forall|k: int| 0 <= k < all.len() ==> is_rule(#[trigger] all[k]),
            chars@ == merged(current@, all.take(i as int)),
            forall|x: Chars| #[trigger] known@.contains(x) <==> bare_lines(chars@).contains(x),
        decreases rules@.len() - i,
    {
        let rule = &rules[i];
        let ghost was = chars@;
        proof {
            assert(all.take(i + 1).drop_last() =~= all.take(i as int));
            assert(all[i as int] == rule@);
            assert(all.take(i + 1).last() == rule@);
        }
        let ghost old_known = known@;
        if known.insert(rule.clone()) {
            let size: usize = chars.len();
            if size > 0 && chars[size - 1] != '\n' {
                chars.push('\n');
            }
            let mut added = chars_of(rule.as_str());
            assert(added@ == rule@);
            chars.append(&mut added);
            chars.push('\n');
            proof {
                assert(chars@ =~= extended(was, rule@));
                lemma_extended(was, rule@);
                let before = bare_lines(was);
                let now = bare_lines(chars@);
                assert forall|x: Chars| #[trigger] known@.contains(x) <==> now.contains(x) by {
                    assert(old_known.contains(x) <==> before.contains(x));
                    if before.contains(x) {
                        let k = choose|k: int| 0 <= k < before.len() && before[k] == x;
                        assert(now[k] == x);
                    }
                    if now.contains(x) {
                        let k = choose|k: int| 0 <= k < now.len() && now[k] == x;
                        if k < before.len() {
                            assert(before[k] == x);
                        }
                    }
                    assert(now[before.len() as int] == rule@);
                }
            }
        } else {
            assert(known@ =~= old_known);
        }
        i = i + 1;
    }
    assert(all.take(i as int) =~= all);
    let size: usize = chars.len();
    assert(chars@.subrange(0, size as int) =~= chars@);
    crate::text::string_of(&chars, 0, size)
}

/// The name under which a policy is kept before rules are moved into it: it
/// tells contents apart.
pub fn ignore_backup_name(current: &str) -> (r: String)
    ensures
        r@ == "before-migration-"@ + hex_text(sha256_of(vstd::utf8::encode_utf8(current@)))
            + ".txt"@,
{
    let digest = sha256(current.as_bytes());
    let text = hex_encode(digest.as_slice());
    let mut r = "before-migration-".to_string();
    r.append(text.as_str());
    r.append(".txt");
    r
}

/// How an interrupted import is settled.
#[derive(Clone, Copy, Debug, PartialEq, Eq, Structural)]
pub enum ImportStep {
    /// The state in use is the right one.
    Keep,
    /// The state in use is put aside as aborted.
    Abort,
    /// The archived state is put back.
    Restore,
    /// The state in use is put aside, and the archived one put back.
    AbortAndRestore,
}

/// What stands in the state's place.
#[derive(Clone, Copy, Debug, PartialEq, Eq, Structural)]
pub enum Place {
    Empty,
    /// Something, but no folder.
    Other,
    Folder,
}

/// How an interrupted import is settled: the new state stays exactly where
/// the configuration already names the import.
pub open spec fn import_step(
    committed: bool,
    had_state: bool,
    archived: bool,
    state: Place,
) -> Result<ImportStep, DeviceFault> {
    if committed {
        if state == Place::Folder {
            Ok(ImportStep::Keep)
        } else {
            Err(DeviceFault::ImportedStateMissing)
        }
    } else if archived {
        if state == Place::Empty {
            Ok(ImportStep::Restore)
        } else {
            Ok(ImportStep::AbortAndRestore)
        }
    } else if had_state {
        if state == Place::Folder {
            Ok(ImportStep::Keep)
        } else {
            Err(DeviceFault::PreviousStateMissing)
        }
    } else if state == Place::Empty {
        Ok(ImportStep::Keep)
    } else {
        Ok(ImportStep::Abort)
    }
}

/// How an interrupted import is settled. `configured` is the import that the
/// configuration names.
pub fn recover_import(
    generation: &str,
    had_state: bool,
    configured: &Option<String>,
    archived: bool,
    state: Place,
) -> (r: Result<ImportStep, DeviceError>)
    ensures
        !valid_hash(generation@) ==> r is Err && r->Err_0@ == DeviceFault::InvalidIdentity,
        valid_hash(generation@) ==> match import_step(
            crate::config::owned_text(*configured) == Some(generation@),
            had_state,
            archived,
            state,
        ) {
            Ok(step) => r == Ok::<ImportStep, DeviceError>(step),
            Err(e) => r is Err && r->Err_0@ == e,
        },
{
    if !is_hash(generation) {
        return Err(DeviceError::InvalidIdentity);
    }
    let committed = match configured {
        Some(text) => same(text.as_str(), generation),
        None => false,
    };
    if committed {
        if state == Place::Folder {
            Ok(ImportStep::Keep)
        } else {
            Err(DeviceError::ImportedStateMissing)
        }
    } else if archived {
        if state == Place::Empty {
            Ok(ImportStep::Restore)
        } else {
            Ok(ImportStep::AbortAndRestore)
        }
    } else if had_state {
        if state == Place::Folder {
            Ok(ImportStep::Keep)
        } else {
            Err(DeviceError::PreviousStateMissing)
        }
    } else if state == Place::Empty {
        Ok(ImportStep::Keep)
    } else {
        Ok(ImportStep::Abort)
    }
}

/// The folders that an import moves: the state in use, the archive of the one
/// before, and whether the configuration names the import.
#[verifier::ext_equal]
pub struct ImportWorld<S> {
    pub state: Option<S>,
    pub archive: Option<S>,
    pub committed: bool,
}

/// The folders after some of an import's three steps: the state in use is
/// archived, the new state takes its place, the configuration is written.
pub open spec fn import_after<S>(was: Option<S>, new: S, steps: int) -> ImportWorld<S> {
    ImportWorld {
        state: if steps >= 2 {
            Some(new)
        } else if steps >= 1 {
            None
        } else {
            was
        },
        archive: if steps >= 1 {
            was
        } else {
            None
        },
        committed: steps >= 3,
    }
}

/// The state in use once an import is settled.
pub open spec fn settled_state<S>(w: ImportWorld<S>, step: ImportStep) -> Option<S> {
    match step {
        ImportStep::Keep => w.state,
        ImportStep::Abort => None,
        ImportStep::Restore => w.archive,
        ImportStep::AbortAndRestore => w.archive,
    }
}

/// An import takes effect whole or not at all: wherever it stops, settling it
/// leaves the new state in use if the configuration was written, and the old
/// one if it was not.
pub proof fn law_import_is_atomic<S>(was: Option<S>, new: S, steps: int)
    requires
        0 <= steps <= 3,
    ensures
        ({
            let w = import_after(was, new, steps);
            let step = import_step(
                w.committed,
                was is Some,
                w.archive is Some,
                if w.state is Some {
                    Place::Folder
                } else {
                    Place::Empty
                },
            );
            &&& step is Ok
            &&& settled_state(w, step->Ok_0) == if steps == 3 {
                Some(new)
            } else {
                was
            }
        }),
{
}

/// How many copies of the configuration are kept.
pub const KEPT_BACKUPS: usize = 8;

/// A letter, a digit or a hyphen.
pub open spec fn label_char(c: char) -> bool {
    'a' <= c <= 'z' || 'A' <= c <= 'Z' || '0' <= c <= '9' || c == '-'
}

/// A label that can stand in a file name.
pub open spec fn sound_label(label: Chars) -> bool {
    0 < label.len() <= 40 && forall|i: int| 0 <= i < label.len() ==> label_char(#[trigger] label[i])
}

/// The name of a file that holds a copy.
pub open spec fn is_backup(name: Chars) -> bool {
    name.len() > 5 && ends(name, ".json"@)
}

/// The names among `names` that hold copies.
pub open spec fn backups_in(names: Set<Chars>) -> Set<Chars> {
    names.filter(|n: Chars| is_backup(n))
}

/// What keeping a copy of the configuration comes to.
pub struct BackupPlan {
    pub file: String,
    pub remove: Vec<String>,
}

/// Where a copy of the configuration goes, and which older copies go away for
/// it: the names begin with the time, so the first of them are the oldest.
pub fn backup_config(label: &str, stamp: u64, present: &StringSet) -> (r: Result<
    BackupPlan,
    DeviceError,
>)
    ensures
        r is Ok <==> sound_label(label@),
        r is Err ==> r->Err_0@ == DeviceFault::InvalidLabel,
        r is Ok ==> r->Ok_0.file@ == decimal(stamp as nat) + "-"@ + label@ + ".json"@,
        r is Ok ==> forall|order: Seq<Chars>|
            #[trigger] lists(order, backups_in(present@.insert(r->Ok_0.file@))) ==> views(
                r->Ok_0.remove@,
            ) == order.take(
                if order.len() > KEPT_BACKUPS {
                    order.len() - KEPT_BACKUPS
                } else {
                    0
                },
            ),
{
    if !is_label(label) {
        return Err(DeviceError::InvalidLabel);
    }
    let mut file = number(stamp);
    file.append("-");
    file.append(label);
    file.append(".json");
    let mut copies = StringSet::new();
    let mut i: usize = 0;
    let n: usize = present.len();
    let ghost order = present.order();
    while i < n
        invariant
            i <= n == order.len(),
            order == present.order(),
            lists(order, present@),
            forall|x: Chars| #[trigger] copies@.contains(x) <==> is_backup(x) && order.take(
                i as int,
            ).contains(x),
        decreases n - i,
    {
        let name = present.at(i);
        let ghost was = copies@;
        if holds_backup(name.as_str()) {
            copies.insert(name.clone());
        }
        assert forall|x: Chars| #[trigger] copies@.contains(x) <==> is_backup(x) && order.take(
            i + 1,
        ).contains(x) by {
            let less = order.take(i as int);
            let more = order.take(i + 1);
            assert(was.contains(x) <==> is_backup(x) && less.contains(x));
            if less.contains(x) {
                let k = choose|k: int| 0 <= k < less.len() && less[k] == x;
                assert(more[k] == x);
            }
            if more.contains(x) {
                let k = choose|k: int| 0 <= k < more.len() && more[k] == x;
                if k < i {
                    assert(less[k] == x);
                }
            }
            assert(more[i as int] == name@);
        }
        i = i + 1;
    }
    assert(order.take(i as int) =~= order);
    if holds_backup(file.as_str()) {
        copies.insert(file.clone());
    }
    assert(copies@ =~= backups_in(present@.insert(file@))) by {
        assert forall|x: Chars| copies@.contains(x) == backups_in(
            present@.insert(file@),
        ).contains(x) by {
            assert(order.contains(x) <==> present@.contains(x));
        }
    }
    let count: usize = copies.len();
    let extra: usize = if count > KEPT_BACKUPS {
        count - KEPT_BACKUPS
    } else {
        0
    };
    let ghost sorted = copies.order();
    let mut remove: Vec<String> = Vec::new();
    let mut k: usize = 0;
    assert(views(remove@) =~= sorted.take(0));
    while k < extra
        invariant
            k <= extra <= sorted.len(),
            sorted == copies.order(),
            views(remove@) == sorted.take(k as int),
        decreases extra - k,
    {
        let name = copies.at(k).clone();
        proof {
            lemma_views_push(remove@, name);
            assert(sorted.take(k + 1) =~= sorted.take(k as int).push(sorted[k as int]));
        }
        remove.push(name);
        k = k + 1;
    }
    proof {
        assert forall|o: Seq<Chars>| #[trigger]
            lists(o, backups_in(present@.insert(file@))) implies views(remove@) == o.take(
            if o.len() > KEPT_BACKUPS {
                o.len() - KEPT_BACKUPS
            } else {
                0
            },
        ) by {
            crate::collections::lemma_listing_unique(o, sorted, copies@);
        }
    }
    Ok(BackupPlan { file, remove })
}

fn is_label(label: &str) -> (r: bool)
    ensures
        r == sound_label(label@),
{
    let chars = chars_of(label);
    if chars.len() == 0 || chars.len() > 40 {
        return false;
    }
    let mut i: usize = 0;
    while i < chars.len()
        invariant
            i <= chars@.len(),
            chars@ == label@,
            forall|k: int| 0 <= k < i ==> label_char(#[trigger] label@[k]),
        decreases chars@.len() - i,
    {
        let c = chars[i];
        if !(('a' <= c && c <= 'z') || ('A' <= c && c <= 'Z') || ('0' <= c && c <= '9') || c
            == '-') {
            assert(!label_char(label@[i as int]));
            return false;
        }
        i = i + 1;
    }
    true
}

fn holds_backup(name: &str) -> (r: bool)
    ensures
        r == is_backup(name@),
{
    match strip_suffix(name, ".json") {
        Some(stem) => {
            proof {
                reveal_strlit(".json");
            }
            stem.as_str().unicode_len() > 0
        },
        None => false,
    }
}

/// The requests with a word are those that were stored with it, in their order.
pub proof fn law_stored_requests_are_sorted_out(a: Seq<StoredView>, b: Seq<StoredView>, s: StoredView, word: Chars)
    ensures
        having(a + b, word) == having(a, word) + having(b, word),
        having(seq![s], word) == if s.state == word {
            seq![s.request]
        } else {
            Seq::empty()
        },
        having(Seq::empty(), word) == Seq::<RequestView>::empty(),
    decreases b.len(),
{
    let one = seq![s];
    assert(one.drop_last() =~= Seq::empty());
    assert(having(one.drop_last(), word) == Seq::<RequestView>::empty());
    assert(having(one, word) =~= if s.state == word {
        seq![s.request]
    } else {
        Seq::empty()
    });
    if b.len() == 0 {
        assert(a + b =~= a);
        assert(having(a + b, word) =~= having(a, word) + having(b, word));
    } else {
        law_stored_requests_are_sorted_out(a, b.drop_last(), s, word);
        assert((a + b).drop_last() =~= a + b.drop_last());
        assert((a + b).last() == b.last());
        assert(having(a + b, word) =~= having(a, word) + having(b, word));
    }
}

/// An update loses nothing of a configuration: the Shares stay with their
/// folders, names, modes and pauses, and so does who the PC is and which phone
/// it knows; every request that waits or was rejected still does, or is.
pub proof fn law_update_loses_nothing(
    c: ConfigView,
    requests: Seq<StoredView>,
    reachable: Seq<bool>,
    i: int,
)
    requires
        0 <= i < c.shares.len(),
    ensures
        ({
            let u = updated(c, requests, reachable);
            let (a, b) = (c.shares[i], u.shares[i]);
            &&& u.shares.len() == c.shares.len()
            &&& b.share_id == a.share_id && b.root == a.root && b.name == a.name && b.mode == a.mode
            &&& b.enabled == a.enabled && b.request_id == a.request_id && b.remap_policy
                == a.remap_policy
            &&& a.remap_policy is None || a.binding_revision > 0 ==> b.binding_revision
                == a.binding_revision
            &&& !reachable[i] ==> b.legacy_ignore == a.legacy_ignore
            &&& reachable[i] ==> b.legacy_ignore.len() == 0
            &&& u.address == c.address && u.listen == c.listen && u.pair_id == c.pair_id && u.cert
                == c.cert && u.key == c.key && u.secret == c.secret && u.peer_device == c.peer_device
            &&& u.sync_paused == c.sync_paused && u.pending_unlink == c.pending_unlink
                && u.import_generation == c.import_generation
            &&& u.version == 8 || (u.version == c.version && legacy_left(u.shares))
        }),
{
}

/// The rules that a Share still carries are written to its folder where that is
/// reachable, and nowhere else.
pub proof fn law_rules_move_to_their_folder(
    shares: Seq<ShareView>,
    reachable: Seq<bool>,
    m: (Chars, Chars),
)
    ensures
        moves(shares, reachable).contains(m) <==> exists|i: int| #![trigger shares[i]]
            0 <= i < shares.len() && reachable[i] && shares[i].legacy_ignore.len() > 0 && m == (
                shares[i].root,
                shares[i].legacy_ignore,
            ),
    decreases shares.len(),
{
    if shares.len() > 0 {
        let less = shares.drop_last();
        let n = shares.len() - 1;
        law_rules_move_to_their_folder(less, reachable, m);
        let rest = moves(less, reachable);
        let all = moves(shares, reachable);
        if rest.contains(m) {
            let k = choose|k: int| 0 <= k < rest.len() && rest[k] == m;
            assert(all[k] == m);
            let i = choose|i: int| #![trigger less[i]]
                0 <= i < less.len() && reachable[i] && less[i].legacy_ignore.len() > 0 && m == (
                    less[i].root,
                    less[i].legacy_ignore,
                );
            assert(shares[i] == less[i]);
        }
        if all.contains(m) && !rest.contains(m) {
            let k = choose|k: int| 0 <= k < all.len() && all[k] == m;
            if k < rest.len() {
                assert(rest[k] == m);
            }
            assert(shares[n] == shares.last());
        }
        if exists|i: int| #![trigger shares[i]]
            0 <= i < shares.len() && reachable[i] && shares[i].legacy_ignore.len() > 0 && m == (
                shares[i].root,
                shares[i].legacy_ignore,
            ) {
            let i = choose|i: int| #![trigger shares[i]]
                0 <= i < shares.len() && reachable[i] && shares[i].legacy_ignore.len() > 0 && m == (
                    shares[i].root,
                    shares[i].legacy_ignore,
                );
            if i < n {
                assert(less[i] == shares[i]);
                assert(rest.contains(m));
            } else {
                assert(all[rest.len() as int] == m);
            }
        }
    } else {
        assert(moves(shares, reachable) =~= Seq::empty());
    }
}

} // verus!
