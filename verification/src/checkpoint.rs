use vstd::prelude::*;
use crate::text::{parse_u32, parse_u32_spec, str_chars};

verus! {

/// The start of a saved network's file name.
pub open spec fn checkpoint_prefix() -> Seq<char> {
    seq!['b', 'r', 'a', 'i', 'n', '_', 'e', 'p', '_']
}

/// The end of a saved network's file name.
pub open spec fn checkpoint_suffix() -> Seq<char> {
    seq!['.', 'm', 's', 'g', 'p', 'a', 'c', 'k']
}

pub open spec fn starts_with(s: Seq<char>, p: Seq<char>) -> bool {
    s.len() >= p.len() && s.take(p.len() as int) == p
}

pub open spec fn ends_with(s: Seq<char>, p: Seq<char>) -> bool {
    s.len() >= p.len() && s.skip(s.len() - p.len()) == p
}

/// `s` without every leading copy of `p` (`str::trim_start_matches`).
pub open spec fn trim_prefix_all(s: Seq<char>, p: Seq<char>) -> Seq<char>
    decreases s.len(),
{
    if p.len() > 0 && starts_with(s, p) {
        trim_prefix_all(s.skip(p.len() as int), p)
    } else {
        s
    }
}

/// `s` without every trailing copy of `p` (`str::trim_end_matches`).
pub open spec fn trim_suffix_all(s: Seq<char>, p: Seq<char>) -> Seq<char>
    decreases s.len(),
{
    if p.len() > 0 && ends_with(s, p) {
        trim_suffix_all(s.take(s.len() - p.len()), p)
    } else {
        s
    }
}

/// `s` with every occurrence of `p` taken out, matched from the left
/// without overlap (`str::replace` with an empty replacement).
pub open spec fn remove_all(s: Seq<char>, p: Seq<char>) -> Seq<char>
    decreases s.len(),
{
    if p.len() == 0 || s.len() == 0 {
        s
    } else if starts_with(s, p) {
        remove_all(s.skip(p.len() as int), p)
    } else {
        seq![s[0]] + remove_all(s.drop_first(), p)
    }
}

/// The episode number in the name of a saved network, `brain_ep_<n>.msgpack`,
/// read as the trainer and the evaluator read it: every leading
/// `brain_ep_` and every trailing `.msgpack` taken off, the rest parsed.
pub open spec fn checkpoint_episode_spec(name: Seq<char>) -> Option<u32> {
    if starts_with(name, checkpoint_prefix()) && ends_with(name, checkpoint_suffix()) {
        parse_u32_spec(trim_suffix_all(trim_prefix_all(name, checkpoint_prefix()), checkpoint_suffix()))
    } else {
        None
    }
}

/// The episode number in the name of a saved network, read as the move
/// adviser reads it: every `brain_ep_`, then every `.msgpack`, taken out
/// wherever it stands, the rest parsed.
pub open spec fn named_episode_spec(name: Seq<char>) -> Option<u32> {
    if starts_with(name, checkpoint_prefix()) && ends_with(name, checkpoint_suffix()) {
        parse_u32_spec(remove_all(remove_all(name, checkpoint_prefix()), checkpoint_suffix()))
    } else {
        None
    }
}

/// The largest of the numbers found, or `None` when none was found.
pub open spec fn latest_of(eps: Seq<Option<u32>>) -> Option<u32>
    decreases eps.len(),
{
    if eps.len() == 0 {
        None
    } else {
        match (latest_of(eps.drop_last()), eps.last()) {
            (None, x) => x,
            (Some(m), None) => Some(m),
            (Some(m), Some(e)) => Some(if e >= m { e } else { m }),
        }
    }
}

/// The position of the last entry that holds the largest number found, or
/// `None` when none was found.
pub open spec fn latest_position(eps: Seq<Option<u32>>) -> Option<int>
    decreases eps.len(),
{
    if eps.len() == 0 {
        None
    } else {
        let prev = latest_position(eps.drop_last());
        match eps.last() {
            None => prev,
            Some(e) => match prev {
                None => Some(eps.len() - 1),
                Some(k) => if e >= eps[k]->0 {
                    Some(eps.len() - 1)
                } else {
                    Some(k)
                },
            },
        }
    }
}

fn chars_of(s: &str) -> (v: Vec<char>)
    ensures
        v@ == s@,
{
    str_chars(s)
}

fn starts_with_at(s: &[char], p: &[char], at: usize) -> (b: bool)
    requires
        at <= s@.len(),
    ensures
        b == starts_with(s@.skip(at as int), p@),
{
    if s.len() - at < p.len() {
        return false;
    }
    let mut k: usize = 0;
    while k < p.len()
        invariant
            0 <= k <= p@.len(),
            at + p@.len() <= s@.len(),
            at + p.len() <= s.len(),
            forall|j: int| 0 <= j < k ==> #[trigger] s@[at + j] == p@[j],
        decreases p@.len() - k,
    {
        if s[at + k] != p[k] {
            assert(s@.skip(at as int).take(p@.len() as int)[k as int] != p@[k as int]);
            return false;
        }
        k = k + 1;
    }
    assert forall|j: int| 0 <= j < p@.len() implies #[trigger] s@.skip(at as int).take(
        p@.len() as int,
    )[j] == p@[j] by {
        assert(s@[at + j] == p@[j]);
    }
    assert(s@.skip(at as int).take(p@.len() as int) =~= p@);
    true
}

fn ends_with_at(s: &[char], p: &[char], end: usize) -> (b: bool)
    requires
        end <= s@.len(),
    ensures
        b == ends_with(s@.take(end as int), p@),
{
    if end < p.len() {
        return false;
    }
    let start = end - p.len();
    let mut k: usize = 0;
    while k < p.len()
        invariant
            0 <= k <= p@.len(),
            start + p@.len() == end <= s@.len(),
            forall|j: int| 0 <= j < k ==> #[trigger] s@[start + j] == p@[j],
        decreases p@.len() - k,
    {
        if s[start + k] != p[k] {
            assert(s@.take(end as int).skip(start as int)[k as int] != p@[k as int]);
            return false;
        }
        k = k + 1;
    }
    assert forall|j: int| 0 <= j < p@.len() implies #[trigger] s@.take(end as int).skip(
        start as int,
    )[j] == p@[j] by {
        assert(s@[start + j] == p@[j]);
    }
    assert(s@.take(end as int).skip(start as int) =~= p@);
    true
}

fn sub_chars(s: &[char], lo: usize, hi: usize) -> (v: Vec<char>)
    requires
        lo <= hi <= s@.len(),
    ensures
        v@ == s@.subrange(lo as int, hi as int),
{
    let mut v: Vec<char> = Vec::new();
    let mut k: usize = lo;
    while k < hi
        invariant
            lo <= k <= hi <= s@.len(),
            v@ == s@.subrange(lo as int, k as int),
        decreases hi - k,
    {
        v.push(s[k]);
        assert(s@.subrange(lo as int, k + 1) =~= s@.subrange(lo as int, k as int).push(s@[k as int]));
        k = k + 1;
    }
    v
}

fn prefix_chars() -> (v: Vec<char>)
    ensures
        v@ == checkpoint_prefix(),
{
    let v = vec!['b', 'r', 'a', 'i', 'n', '_', 'e', 'p', '_'];
    assert(v@ =~= checkpoint_prefix());
    v
}

fn suffix_chars() -> (v: Vec<char>)
    ensures
        v@ == checkpoint_suffix(),
{
    let v = vec!['.', 'm', 's', 'g', 'p', 'a', 'c', 'k'];
    assert(v@ =~= checkpoint_suffix());
    v
}

/// `s` without every leading copy and then every trailing copy of the
/// checkpoint's prefix and suffix.
fn trim_both(s: &[char], p: &[char], q: &[char]) -> (v: Vec<char>)
    requires
        p@.len() > 0,
        q@.len() > 0,
    ensures
        v@ == trim_suffix_all(trim_prefix_all(s@, p@), q@),
{
    let n = s.len();
    let mut lo: usize = 0;
    assert(s@.skip(0) =~= s@);
    while starts_with_at(s, p, lo)
        invariant
            lo <= n == s@.len(),
            p@.len() > 0,
            trim_prefix_all(s@, p@) == trim_prefix_all(s@.skip(lo as int), p@),
        decreases n - lo,
    {
        assert(s@.skip(lo as int).skip(p@.len() as int) =~= s@.skip(lo + p@.len()));
        lo = lo + p.len();
    }
    let ghost rest = s@.skip(lo as int);
    assert(s@.subrange(lo as int, n as int) =~= rest);
    let mut hi: usize = n;
    assert(rest.take(rest.len() as int) =~= rest);
    while hi - lo >= q.len() && ends_with_at(s, q, hi)
        invariant
            lo <= hi <= n == s@.len(),
            q@.len() > 0,
            rest == s@.skip(lo as int),
            trim_suffix_all(rest, q@) == trim_suffix_all(s@.subrange(lo as int, hi as int), q@),
        decreases hi,
    {
        let ghost cur = s@.subrange(lo as int, hi as int);
        assert(cur.skip(cur.len() - q@.len()) =~= s@.take(hi as int).skip(hi - q@.len()));
        assert(cur.take(cur.len() - q@.len()) =~= s@.subrange(lo as int, hi - q@.len()));
        hi = hi - q.len();
    }
    proof {
        let cur = s@.subrange(lo as int, hi as int);
        if cur.len() >= q@.len() && ends_with(cur, q@) {
            assert(cur.skip(cur.len() - q@.len()) =~= s@.take(hi as int).skip(hi - q@.len()));
        }
    }
    sub_chars(s, lo, hi)
}

/// The episode number in the name of a saved network (see
/// [`checkpoint_episode_spec`]).
pub fn checkpoint_episode(name: &str) -> (r: Option<u32>)
    ensures
        r == checkpoint_episode_spec(name@),
{
    let s = chars_of(name);
    let p = prefix_chars();
    let q = suffix_chars();
    assert(s@.skip(0) =~= s@);
    assert(s@.take(s@.len() as int) =~= s@);
    if !starts_with_at(s.as_slice(), p.as_slice(), 0) || !ends_with_at(
        s.as_slice(),
        q.as_slice(),
        s.len(),
    ) {
        return None;
    }
    let num = trim_both(s.as_slice(), p.as_slice(), q.as_slice());
    parse_u32(num.as_slice())
}

/// `s` with every occurrence of `p` taken out (see [`remove_all`]).
fn remove_chars(s: &[char], p: &[char]) -> (v: Vec<char>)
    requires
        p@.len() > 0,
    ensures
        v@ == remove_all(s@, p@),
{
    let n = s.len();
    let mut out: Vec<char> = Vec::new();
    let mut i: usize = 0;
    assert(s@.skip(0) =~= s@);
    while i < n
        invariant
            i <= n == s@.len(),
            p@.len() > 0,
            remove_all(s@, p@) == out@ + remove_all(s@.skip(i as int), p@),
        decreases n - i,
    {
        let ghost rest = s@.skip(i as int);
        if starts_with_at(s, p, i) {
            assert(rest.skip(p@.len() as int) =~= s@.skip(i + p@.len()));
            i = i + p.len();
        } else {
            let ghost before = out@;
            out.push(s[i]);
            assert(rest[0] == s@[i as int]);
            assert(rest.drop_first() =~= s@.skip(i + 1));
            assert(before + (seq![rest[0]] + remove_all(rest.drop_first(), p@)) =~= out@
                + remove_all(s@.skip(i + 1), p@));
            i = i + 1;
        }
    }
    assert(s@.skip(n as int) =~= Seq::<char>::empty());
    assert(out@ + Seq::<char>::empty() =~= out@);
    out
}

/// The episode number in a saved network's name as the move adviser reads
/// it (see [`named_episode_spec`]).
pub fn named_episode(name: &str) -> (r: Option<u32>)
    ensures
        r == named_episode_spec(name@),
{
    let s = chars_of(name);
    let p = prefix_chars();
    let q = suffix_chars();
    assert(s@.skip(0) =~= s@);
    assert(s@.take(s@.len() as int) =~= s@);
    if !starts_with_at(s.as_slice(), p.as_slice(), 0) || !ends_with_at(
        s.as_slice(),
        q.as_slice(),
        s.len(),
    ) {
        return None;
    }
    let first = remove_chars(s.as_slice(), p.as_slice());
    let num = remove_chars(first.as_slice(), q.as_slice());
    parse_u32(num.as_slice())
}

/// The highest episode among the names of saved networks, `None` when no
/// name is one.
pub fn find_latest_checkpoint(names: &Vec<String>) -> (r: Option<u32>)
    ensures
        r == latest_of(names@.map_values(|n: String| checkpoint_episode_spec(n@))),
{
    let ghost eps = names@.map_values(|n: String| checkpoint_episode_spec(n@));
    let mut max_ep: u32 = 0;
    let mut found = false;
    let mut i: usize = 0;
    while i < names.len()
        invariant
            0 <= i <= names@.len(),
            eps == names@.map_values(|n: String| checkpoint_episode_spec(n@)),
            latest_of(eps.take(i as int)) == (if found {
                Some(max_ep)
            } else {
                None::<u32>
            }),
        decreases names@.len() - i,
    {
        let ep = checkpoint_episode(names[i].as_str());
        assert(eps.take(i + 1).drop_last() =~= eps.take(i as int));
        assert(eps.take(i + 1).last() == ep);
        if let Some(e) = ep {
            if !found || e >= max_ep {
                max_ep = e;
                found = true;
            }
        }
        i = i + 1;
    }
    assert(eps.take(names@.len() as int) =~= eps);
    if found {
        Some(max_ep)
    } else {
        None
    }
}

/// The name of the saved network with the highest episode, the last such
/// name on a tie, as the move adviser reads the names; `None` when no name
/// is one.
pub fn find_latest_checkpoint_name(names: &Vec<String>) -> (r: Option<String>)
    ensures
        ({
            let pos = latest_position(names@.map_values(|n: String| named_episode_spec(n@)));
            match r {
                None => pos is None,
                Some(name) => pos matches Some(k) && 0 <= k < names@.len() && name@ == names@[k]@,
            }
        }),
{
    let ghost eps = names@.map_values(|n: String| named_episode_spec(n@));
    let mut best: Option<usize> = None;
    let mut max_ep: u32 = 0;
    let mut i: usize = 0;
    while i < names.len()
        invariant
            0 <= i <= names@.len(),
            eps == names@.map_values(|n: String| named_episode_spec(n@)),
            eps.len() == names@.len(),
            match best {
                None => latest_position(eps.take(i as int)) is None,
                Some(k) => latest_position(eps.take(i as int)) == Some(k as int) && k < i
                    && eps[k as int] == Some(max_ep),
            },
        decreases names@.len() - i,
    {
        let ep = named_episode(names[i].as_str());
        let ghost t = eps.take(i + 1);
        assert(t.drop_last() =~= eps.take(i as int));
        assert(t.last() == ep);
        if let Some(e) = ep {
            match best {
                None => {
                    best = Some(i);
                    max_ep = e;
                },
                Some(k) => {
                    assert(t[k as int] == eps[k as int]);
                    if e >= max_ep {
                        best = Some(i);
                        max_ep = e;
                    }
                },
            }
        }
        i = i + 1;
    }
    assert(eps.take(names@.len() as int) =~= eps);
    match best {
        None => None,
        Some(k) => Some(names[k].clone()),
    }
}

/// The latest episode is the largest one found: there is none exactly when
/// no entry holds a number, and otherwise it is one of the numbers and no
/// number is larger.
pub proof fn lemma_latest_is_max(eps: Seq<Option<u32>>)
    ensures
        latest_of(eps) is None <==> forall|i: int| 0 <= i < eps.len() ==> #[trigger] eps[i] is None,
        latest_of(eps) matches Some(m) ==> {
            &&& exists|i: int| 0 <= i < eps.len() && #[trigger] eps[i] == Some(m)
            &&& forall|i: int| 0 <= i < eps.len() && #[trigger] eps[i] is Some ==> eps[i]->0 <= m
        },
    decreases eps.len(),
{
    if eps.len() > 0 {
        let prev = eps.drop_last();
        lemma_latest_is_max(prev);
        assert forall|i: int| 0 <= i < prev.len() implies #[trigger] prev[i] == eps[i] by {}
        let n = eps.len() - 1;
        match latest_of(prev) {
            None => {
                if eps.last() is None {
                    assert forall|i: int| 0 <= i < eps.len() implies #[trigger] eps[i] is None by {
                        if i < n {
                            assert(prev[i] == eps[i]);
                        }
                    }
                } else {
                    assert(eps[n] == eps.last());
                    assert forall|i: int| 0 <= i < eps.len() && #[trigger] eps[i] is Some implies eps[i]->0
                        <= latest_of(eps)->0 by {
                        if i < n {
                            assert(prev[i] == eps[i]);
                        }
                    }
                }
            },
            Some(m) => {
                let w = choose|i: int| 0 <= i < prev.len() && #[trigger] prev[i] == Some(m);
                assert(eps[w] == Some(m));
                assert(!(eps[w] is None));
                if eps.last() is Some && eps.last()->0 >= m {
                    assert(eps[n] == eps.last());
                    assert(eps[n] == latest_of(eps));
                } else {
                    assert(latest_of(eps) == Some(m));
                }
                assert forall|i: int| 0 <= i < eps.len() && #[trigger] eps[i] is Some implies eps[i]->0
                    <= latest_of(eps)->0 by {
                    if i < n {
                        assert(prev[i] == eps[i]);
                    }
                }
            },
        }
    }
}

} // verus!
