//! Expansion of an account's paginated repository listing.
//!
//! The platform reports an account's repositories page by page; each entry
//! carries a clone URL and a fork flag. The pipeline keeps the clone URL of
//! every entry of every page that is not a fork, in listing order. The total
//! entry count is not reported directly: it is derived from the marker of the
//! last page — a URL whose query holds `page` and `per_page` keys — and falls
//! back to the number of items already seen when no such marker exists.

use vstd::prelude::*;
use vstd::seq_lib::*;

verus! {

/// One entry of an account's repository listing, as the platform reports
/// it: the address to clone and whether the repository is a fork.
pub struct RepoListing {
    pub clone_url: String,
    pub fork: bool,
}

/// The clone URLs kept from a run of listing entries: those of every entry
/// that is not a fork, in listing order.
pub open spec fn kept_urls(entries: Seq<RepoListing>) -> Seq<Seq<char>> {
    entries.filter(|e: RepoListing| !e.fork).map_values(|e: RepoListing| e.clone_url@)
}

/// The views of a run of pages.
pub open spec fn pages_view(pages: Seq<Vec<RepoListing>>) -> Seq<Seq<RepoListing>> {
    pages.map_values(|p: Vec<RepoListing>| p@)
}

/// The views of a run of strings.
pub open spec fn strings_view(v: Seq<String>) -> Seq<Seq<char>> {
    v.map_values(|s: String| s@)
}

proof fn lemma_kept_urls_push(entries: Seq<RepoListing>, e: RepoListing)
    ensures
        kept_urls(entries.push(e)) == if !e.fork {
            kept_urls(entries).push(e.clone_url@)
        } else {
            kept_urls(entries)
        },
{
    broadcast use Seq::lemma_filter_push;
    broadcast use Seq::lemma_push_map_commute;

    if !e.fork {
        assert(kept_urls(entries.push(e)) =~= kept_urls(entries).push(e.clone_url@));
    }
}

/// The URL at position `k` of the kept URLs is the clone URL of some
/// non-fork entry.
pub open spec fn kept_from_nonfork(entries: Seq<RepoListing>, k: int) -> bool {
    exists|i: int|
        0 <= i < entries.len() && !(#[trigger] entries[i]).fork && entries[i].clone_url@
            == kept_urls(entries)[k]
}

/// Every kept URL belongs to a non-fork entry: a forked repository
/// contributes nothing to the expansion.
pub proof fn lemma_no_forks_kept(entries: Seq<RepoListing>)
    ensures
        forall|k: int| 0 <= k < kept_urls(entries).len() ==> #[trigger] kept_from_nonfork(
            entries,
            k,
        ),
{
    broadcast use group_filter_ensures;

    let pred = |e: RepoListing| !e.fork;
    let kept = entries.filter(pred);
    assert forall|k: int| 0 <= k < kept_urls(entries).len() implies #[trigger] kept_from_nonfork(
        entries,
        k,
    ) by {
        assert(kept_urls(entries) == kept.map_values(|e: RepoListing| e.clone_url@));
        assert(kept_urls(entries)[k] == kept[k].clone_url@);
        assert(kept.contains(kept[k]));
        entries.lemma_filter_contains_rev(pred, kept[k]);
        let i = choose|i: int| 0 <= i < entries.len() && entries[i] == kept[k];
        assert(pred(kept[k]));
        assert(0 <= i < entries.len() && !entries[i].fork && entries[i].clone_url@ == kept_urls(
            entries,
        )[k]);
    }
}

/// Flattens the pages of an account's listing and keeps the clone URL of
/// every entry that is not a fork, each entry of each page weighed exactly
/// once, in listing order.
pub fn kept_clone_urls(pages: &Vec<Vec<RepoListing>>) -> (r: Vec<String>)
    ensures
        strings_view(r@) == kept_urls(pages_view(pages@).flatten()),
{
    broadcast use Seq::lemma_push_map_commute;
    broadcast use Seq::lemma_flatten_push;

    let mut out: Vec<String> = Vec::new();
    let ghost mut entries: Seq<RepoListing> = Seq::empty();
    proof {
        assert(pages_view(pages@.take(0)).flatten() =~= entries);
        assert(strings_view(out@) =~= kept_urls(entries));
    }
    let mut i: usize = 0;
    while i < pages.len()
        invariant
            0 <= i <= pages@.len(),
            entries == pages_view(pages@.take(i as int)).flatten(),
            strings_view(out@) == kept_urls(entries),
        decreases pages@.len() - i,
    {
        let page = &pages[i];
        let mut j: usize = 0;
        proof {
            assert(entries + page@.take(0) =~= entries);
        }
        let ghost page_start = entries;
        while j < page.len()
            invariant
                0 <= j <= page@.len(),
                entries == page_start + page@.take(j as int),
                strings_view(out@) == kept_urls(entries),
            decreases page@.len() - j,
        {
            let e = &page[j];
            proof {
                lemma_kept_urls_push(entries, *e);
            }
            if !e.fork {
                out.push(e.clone_url.clone());
            }
            proof {
                assert(page_start + page@.take(j + 1) =~= entries.push(page@[j as int]));
                entries = entries.push(*e);
            }
            j = j + 1;
        }
        proof {
            assert(page@.take(page@.len() as int) =~= page@);
            assert(entries =~= page_start + page@);
            assert(pages@.take(i + 1) =~= pages@.take(i as int).push(pages@[i as int]));
            assert(pages_view(pages@.take(i + 1)) =~= pages_view(pages@.take(i as int)).push(
                page@,
            ));
            pages_view(pages@.take(i as int)).lemma_flatten_push(page@);
            assert(entries == pages_view(pages@.take(i + 1)).flatten());
        }
        i = i + 1;
    }
    proof {
        assert(pages@.take(pages@.len() as int) =~= pages@);
    }
    out
}

/// Index of the first occurrence of `c` in `s`, or `s.len()` when there is
/// none.
pub open spec fn char_idx(s: Seq<char>, c: char) -> nat
    decreases s.len(),
{
    if s.len() == 0 {
        0
    } else if s[0] == c {
        0
    } else {
        1 + char_idx(s.skip(1), c)
    }
}

pub proof fn lemma_char_idx_unique(s: Seq<char>, c: char, d: int)
    requires
        0 <= d <= s.len(),
        forall|i: int| 0 <= i < d ==> #[trigger] s[i] != c,
        d < s.len() ==> s[d] == c,
    ensures
        char_idx(s, c) == d,
    decreases s.len(),
{
    if s.len() == 0 {
    } else if s[0] == c {
        assert(d == 0);
    } else {
        assert(d >= 1);
        assert forall|i: int| 0 <= i < d - 1 implies #[trigger] s.skip(1)[i] != c by {
            assert(s.skip(1)[i] == s[i + 1]);
        }
        if d - 1 < s.skip(1).len() {
            assert(s.skip(1)[d - 1] == s[d]);
        }
        lemma_char_idx_unique(s.skip(1), c, d - 1);
    }
}

/// The `&`-separated pieces of a query string.
pub open spec fn split_pairs(s: Seq<char>) -> Seq<Seq<char>>
    decreases s.len(),
{
    let i = char_idx(s, '&');
    if i >= s.len() {
        seq![s]
    } else {
        seq![s.take(i as int)] + split_pairs(s.skip(i as int + 1))
    }
}

/// The key of one `key=value` piece: the characters before the first `=`.
pub open spec fn pair_key(p: Seq<char>) -> Seq<char> {
    p.take(char_idx(p, '=') as int)
}

/// The value of one `key=value` piece: the characters after the first `=`,
/// empty when there is no `=`.
pub open spec fn pair_value(p: Seq<char>) -> Seq<char> {
    if char_idx(p, '=') >= p.len() {
        Seq::empty()
    } else {
        p.skip(char_idx(p, '=') as int + 1)
    }
}

/// The value of the first piece whose key is `key`.
pub open spec fn lookup_value(pieces: Seq<Seq<char>>, key: Seq<char>) -> Option<Seq<char>>
    decreases pieces.len(),
{
    if pieces.len() == 0 {
        None
    } else if pair_key(pieces[0]) == key {
        Some(pair_value(pieces[0]))
    } else {
        lookup_value(pieces.skip(1), key)
    }
}

/// A decimal digit.
pub open spec fn is_digit(c: char) -> bool {
    48 <= c as u32 <= 57
}

pub open spec fn all_digits(s: Seq<char>) -> bool {
    forall|i: int| 0 <= i < s.len() ==> is_digit(#[trigger] s[i])
}

/// The number that a run of decimal digits denotes.
pub open spec fn dec_val(s: Seq<char>) -> int
    decreases s.len(),
{
    if s.len() == 0 {
        0
    } else {
        dec_val(s.drop_last()) * 10 + (s.last() as u32 - 48)
    }
}

/// A count a query value may denote: a nonempty run of decimal digits
/// whose value the machine can hold.
pub open spec fn valid_count(s: Seq<char>) -> bool {
    s.len() > 0 && all_digits(s) && dec_val(s) <= usize::MAX
}

proof fn lemma_dec_val_nonneg(s: Seq<char>)
    requires
        all_digits(s),
    ensures
        dec_val(s) >= 0,
    decreases s.len(),
{
    if s.len() > 0 {
        assert(all_digits(s.drop_last())) by {
            assert(forall|i: int|
                0 <= i < s.len() - 1 ==> #[trigger] s.drop_last()[i] == s[i]);
        }
        lemma_dec_val_nonneg(s.drop_last());
    }
}

/// Reading more digits never shrinks the value.
proof fn lemma_dec_val_prefix(s: Seq<char>, k: int)
    requires
        all_digits(s),
        0 <= k <= s.len(),
    ensures
        dec_val(s.take(k)) <= dec_val(s),
    decreases s.len() - k,
{
    if k == s.len() {
        assert(s.take(k) =~= s);
    } else {
        assert(all_digits(s.take(k + 1))) by {
            assert(forall|i: int| 0 <= i < k + 1 ==> #[trigger] s.take(k + 1)[i] == s[i]);
        }
        assert(s.take(k + 1).drop_last() =~= s.take(k));
        lemma_dec_val_nonneg(s.take(k));
        assert(dec_val(s.take(k + 1)) == dec_val(s.take(k)) * 10 + (s[k] as u32 - 48));
        lemma_dec_val_prefix(s, k + 1);
    }
}

/// Reads a nonempty run of decimal digits as a machine-sized number.
pub fn parse_usize(s: &str) -> (r: Option<usize>)
    ensures
        match r {
            Some(n) => valid_count(s@) && n == dec_val(s@),
            None => !valid_count(s@),
        },
{
    let n = s.unicode_len();
    if n == 0 {
        return None;
    }
    let mut acc: u128 = 0;
    let mut i: usize = 0;
    while i < n
        invariant
            0 <= i <= n,
            n == s@.len(),
            all_digits(s@.take(i as int)),
            acc == dec_val(s@.take(i as int)),
            acc <= usize::MAX as u128,
        decreases n - i,
    {
        let c = s.get_char(i);
        let v = c as u32;
        if v < 48 || v > 57 {
            assert(!is_digit(s@[i as int]));
            return None;
        }
        let d = (v - 48) as u128;
        let next = acc * 10 + d;
        proof {
            assert(s@.take(i + 1).drop_last() =~= s@.take(i as int));
            assert(s@.take(i + 1).last() == s@[i as int]);
            assert(all_digits(s@.take(i + 1))) by {
                assert(forall|j: int|
                    0 <= j < i ==> #[trigger] s@.take(i + 1)[j] == s@.take(i as int)[j]);
            }
            assert(next == dec_val(s@.take(i + 1)));
        }
        if next > usize::MAX as u128 {
            proof {
                if all_digits(s@) {
                    lemma_dec_val_prefix(s@, i + 1);
                }
            }
            return None;
        }
        acc = next;
        i = i + 1;
    }
    proof {
        assert(s@.take(n as int) =~= s@);
    }
    Some(acc as usize)
}

/// First position at or after `from` where `c` stands in `s`, or the
/// length of `s` when there is none.
fn find_char_from(s: &str, from: usize, c: char) -> (r: usize)
    requires
        from <= s@.len(),
    ensures
        from <= r <= s@.len(),
        forall|j: int| from <= j < r ==> #[trigger] s@[j] != c,
        r < s@.len() ==> s@[r as int] == c,
{
    let n = s.unicode_len();
    let mut i: usize = from;
    while i < n
        invariant
            from <= i <= n,
            n == s@.len(),
            forall|j: int| from <= j < i ==> #[trigger] s@[j] != c,
        decreases n - i,
    {
        if s.get_char(i) == c {
            return i;
        }
        i = i + 1;
    }
    n
}

/// Looks `key` up among the `&`-separated `key=value` pieces of a query
/// string, yielding the first matching piece's value.
pub fn query_lookup(q: &str, key: &str) -> (r: Option<String>)
    ensures
        match r {
            Some(v) => lookup_value(split_pairs(q@), key@) == Some(v@),
            None => lookup_value(split_pairs(q@), key@) is None,
        },
{
    let n = q.unicode_len();
    proof {
        assert(q@.skip(0) =~= q@);
    }
    let mut start: usize = 0;
    loop
        invariant
            0 <= start <= n,
            n == q@.len(),
            lookup_value(split_pairs(q@), key@) == lookup_value(
                split_pairs(q@.skip(start as int)),
                key@,
            ),
        decreases n - start + 1,
    {
        let amp = find_char_from(q, start, '&');
        let eq = find_char_from(q, start, '=');
        let keyend = if eq < amp {
            eq
        } else {
            amp
        };
        let ghost rem = q@.skip(start as int);
        let ghost piece = q@.subrange(start as int, amp as int);
        proof {
            assert(piece =~= rem.take(amp - start));
            assert forall|j: int| 0 <= j < amp - start implies #[trigger] rem[j] != '&' by {
                assert(rem[j] == q@[j + start]);
            }
            if amp < n {
                assert(rem[amp - start] == q@[amp as int]);
            }
            lemma_char_idx_unique(rem, '&', amp - start);
            if amp == n {
                assert(piece =~= rem);
            }
            // The first `=` of the piece stands at `keyend`.
            assert forall|j: int| 0 <= j < keyend - start implies #[trigger] piece[j] != '=' by {
                assert(piece[j] == q@[j + start]);
            }
            if keyend < amp {
                assert(piece[keyend - start] == q@[keyend as int]);
            }
            lemma_char_idx_unique(piece, '=', keyend - start);
            assert(pair_key(piece) =~= q@.subrange(start as int, keyend as int));
            // The piece at hand heads the remaining pieces.
            if amp < n {
                assert(split_pairs(rem) == seq![rem.take(amp - start)] + split_pairs(
                    rem.skip(amp - start + 1),
                ));
            } else {
                assert(split_pairs(rem) == seq![rem]);
            }
            assert(split_pairs(rem)[0] == piece);
        }
        if str_region_eq(q, start, keyend, key) {
            if eq < amp {
                let v = q.substring_char(eq + 1, amp);
                proof {
                    assert(pair_value(piece) =~= q@.subrange(eq + 1, amp as int));
                }
                return Some(v.to_owned());
            } else {
                proof {
                    assert(pair_value(piece) =~= Seq::<char>::empty());
                }
                return Some(String::new());
            }
        }
        if amp == n {
            proof {
                assert(split_pairs(rem).skip(1) =~= Seq::<Seq<char>>::empty());
                assert(lookup_value(Seq::<Seq<char>>::empty(), key@) is None);
                assert(lookup_value(split_pairs(rem), key@) is None);
            }
            return None;
        }
        proof {
            assert(split_pairs(rem).skip(1) =~= split_pairs(rem.skip(amp - start + 1)));
            assert(rem.skip(amp - start + 1) =~= q@.skip(amp + 1));
        }
        start = amp + 1;
    }
}

/// True iff the characters of `s` from `from` to `to` are exactly `key`.
fn str_region_eq(s: &str, from: usize, to: usize, key: &str) -> (r: bool)
    requires
        from <= to <= s@.len(),
    ensures
        r == (s@.subrange(from as int, to as int) == key@),
{
    let kl = key.unicode_len();
    if to - from != kl {
        return false;
    }
    let mut i: usize = 0;
    while i < kl
        invariant
            0 <= i <= kl,
            kl == key@.len(),
            from + kl == to <= s@.len(),
            forall|j: int| 0 <= j < i ==> s@[from + j] == key@[j],
        decreases kl - i,
    {
        if s.get_char(from + i) != key.get_char(i) {
            assert(s@.subrange(from as int, to as int)[i as int] != key@[i as int]);
            return false;
        }
        i = i + 1;
    }
    assert(s@.subrange(from as int, to as int) =~= key@);
    true
}

/// A last-page marker's coordinates: the page number and the page size.
pub struct PageQuery {
    pub page: usize,
    pub per_page: usize,
}

/// The coordinates that a last-page marker's query denotes: the decimal
/// values of its `page` and `per_page` keys, when both are present and
/// well formed.
pub open spec fn spec_page_query(q: Seq<char>) -> Option<(int, int)> {
    match (lookup_value(split_pairs(q), "page"@), lookup_value(split_pairs(q), "per_page"@)) {
        (Some(p), Some(pp)) => if valid_count(p) && valid_count(pp) {
            Some((dec_val(p), dec_val(pp)))
        } else {
            None
        },
        _ => None,
    }
}

/// Reads the `page` and `per_page` coordinates out of a last-page
/// marker's query string.
pub fn parse_page_query(q: &str) -> (r: Option<PageQuery>)
    ensures
        match r {
            Some(pq) => spec_page_query(q@) == Some((pq.page as int, pq.per_page as int)),
            None => spec_page_query(q@) is None,
        },
{
    let pv = query_lookup(q, "page");
    let ppv = query_lookup(q, "per_page");
    match (pv, ppv) {
        (Some(p), Some(pp)) => {
            match (parse_usize(p.as_str()), parse_usize(pp.as_str())) {
                (Some(page), Some(per_page)) => Some(PageQuery { page, per_page }),
                _ => None,
            }
        },
        _ => None,
    }
}

/// The total number of repositories that an account's listing holds: the
/// product of the last-page marker's coordinates when a marker exists and
/// is well formed, the number of items already seen when no further pages
/// exist, and nothing when the marker is malformed or the product does not
/// fit the machine.
pub fn total_count(last_query: Option<&str>, items_seen: usize) -> (r: Option<usize>)
    ensures
        match last_query {
            None => r == Some(items_seen),
            Some(q) => match spec_page_query(q@) {
                Some(coords) => if coords.0 * coords.1 <= usize::MAX {
                    r matches Some(t) && t == coords.0 * coords.1
                } else {
                    r is None
                },
                None => r is None,
            },
        },
{
    match last_query {
        None => Some(items_seen),
        Some(q) => {
            match parse_page_query(q) {
                Some(pq) => pq.page.checked_mul(pq.per_page),
                None => None,
            }
        },
    }
}

} // verus!
