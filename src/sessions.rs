//! Bookkeeping of saved sessions: the list of recently used session files.

use vstd::prelude::*;

verus! {

/// A recently used session file and the name shown for it.
#[derive(Debug)]
pub struct RecentSessionInfo {
    pub path: String,
    pub name: String,
}

/// A named, coloured group of tabs.
#[derive(Debug)]
pub struct TabGroup {
    pub id: String,
    pub name: String,
    pub color: String,
    pub order: u32,
    pub tab_ids: Vec<String>,
    pub collapsed: Option<bool>,
}

/// How many recent sessions are remembered.
pub const MAX_RECENT_SESSIONS: usize = 10;

/// The values of a sequence of strings.
pub open spec fn session_views(v: Seq<String>) -> Seq<Seq<char>> {
    v.map_values(|s: String| s@)
}

/// Holds of every entry but `p`.
pub open spec fn other_than(p: Seq<char>) -> spec_fn(Seq<char>) -> bool {
    |q: Seq<char>| q != p
}

/// The recent-session list after `p` is used: `p` first, then the earlier
/// entries other than `p` in their order, cut to the most recent ten.
pub open spec fn recent_after(list: Seq<Seq<char>>, p: Seq<char>) -> Seq<Seq<char>> {
    let l = seq![p] + list.filter(other_than(p));
    if l.len() > MAX_RECENT_SESSIONS {
        l.subrange(0, MAX_RECENT_SESSIONS as int)
    } else {
        l
    }
}

/// Moves `path` to the front of the recent-session list, removing any
/// earlier occurrence, and keeps at most ten entries.
pub fn add_recent_session(recent_sessions: &mut Vec<String>, path: &str)
    ensures
        session_views(final(recent_sessions)@) == recent_after(
            session_views(old(recent_sessions)@),
            path@,
        ),
{
    let ghost before = session_views(recent_sessions@);
    let ghost pred = other_than(path@);
    let key = path.to_owned();
    let mut out: Vec<String> = Vec::new();
    out.push(path.to_owned());
    let n = recent_sessions.len();
    let mut i: usize = 0;
    while i < n
        invariant
            n == recent_sessions@.len(),
            before == session_views(recent_sessions@),
            key@ == path@,
            pred == other_than(path@),
            i <= n,
            session_views(out@) == seq![path@] + before.subrange(0, i as int).filter(pred),
        decreases n - i,
    {
        let ghost prev = session_views(out@);
        let ghost done = before.subrange(0, i as int);
        assert(before.subrange(0, i + 1) =~= done.push(before[i as int]));
        assert(before.subrange(0, i + 1).filter(pred) == if pred(before[i as int]) {
            done.filter(pred).push(before[i as int])
        } else {
            done.filter(pred)
        }) by {
            reveal_with_fuel(Seq::filter, 1);
            assert(done.push(before[i as int]).drop_last() =~= done);
        }
        if recent_sessions[i] != key {
            out.push(recent_sessions[i].clone());
            assert(session_views(out@) =~= prev.push(before[i as int]));
        }
        i = i + 1;
    }
    assert(before.subrange(0, n as int) =~= before);
    out.truncate(MAX_RECENT_SESSIONS);
    assert(session_views(out@) =~= recent_after(before, path@));
    *recent_sessions = out;
}

/// Dropping `p` from a list that does not hold it changes nothing.
proof fn lemma_drop_absent(l: Seq<Seq<char>>, p: Seq<char>)
    requires
        !l.contains(p),
    ensures
        l.filter(other_than(p)) == l,
    decreases l.len(),
{
    reveal(Seq::filter);
    if l.len() > 0 {
        assert(!l.drop_last().contains(p)) by {
            if l.drop_last().contains(p) {
                let k = choose|k: int| 0 <= k < l.drop_last().len() && l.drop_last()[k] == p;
                assert(l[k] == p);
            }
        }
        lemma_drop_absent(l.drop_last(), p);
        assert(l.last() != p) by {
            if l.last() == p {
                assert(l[l.len() - 1] == p);
            }
        }
        assert(l.drop_last().push(l.last()) =~= l);
    }
}

/// The recent-session list after using `p` starts with `p`, holds it only
/// there, has at most ten entries, and using `p` again changes nothing.
pub proof fn lemma_recent_after(l: Seq<Seq<char>>, p: Seq<char>)
    ensures
        recent_after(l, p).len() >= 1,
        recent_after(l, p)[0] == p,
        recent_after(l, p).len() <= MAX_RECENT_SESSIONS,
        forall|i: int| 1 <= i < recent_after(l, p).len() ==> #[trigger] recent_after(l, p)[i] != p,
        recent_after(recent_after(l, p), p) == recent_after(l, p),
{
    broadcast use vstd::seq_lib::group_filter_ensures;

    let pred = other_than(p);
    let rest = l.filter(pred);
    let full = seq![p] + rest;
    let r = recent_after(l, p);
    assert(full.len() == rest.len() + 1);
    assert(r.len() <= full.len());
    assert forall|i: int| 1 <= i < r.len() implies #[trigger] r[i] != p by {
        assert(r[i] == full[i]);
        assert(full[i] == rest[i - 1]);
        assert(pred(rest[i - 1]));
    }
    let tail = r.drop_first();
    assert(!tail.contains(p)) by {
        if tail.contains(p) {
            let k = choose|k: int| 0 <= k < tail.len() && tail[k] == p;
            assert(r[k + 1] == p);
        }
    }
    lemma_drop_absent(tail, p);
    assert(r =~= seq![p] + tail);
    Seq::filter_distributes_over_add(seq![p], tail, pred);
    reveal_with_fuel(Seq::filter, 2);
    assert(seq![p].drop_last() =~= Seq::<Seq<char>>::empty());
    assert(seq![p].filter(pred) =~= Seq::<Seq<char>>::empty());
    assert(r.filter(pred) =~= tail);
    assert(seq![p] + r.filter(pred) =~= r);
}

} // verus!
