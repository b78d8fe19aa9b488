//! Combining the reserved accounts that several texts mention into one
//! sorted list without repeats.

use vstd::prelude::*;
use vstd::relations::sorted_by;
use crate::order::{byte_order, byte_strings, canonical, sort_byte_strings};
use crate::text::{line_bytes, texts, utf8_of};

verus! {

/// The account names that a text mentions: the successive matches of the
/// pattern `([^\s]+\.bit)`, as the `regex` crate finds them, in the order
/// they occur.
pub uninterp spec fn mentioned_accounts(data: Seq<char>) -> Seq<Seq<char>>;

/// Calls `regex::Regex::find_iter` with the pattern `([^\s]+\.bit)` and
/// collects the text of each match. Trusted: the matches are a function of
/// the text searched alone, which the contract names `mentioned_accounts`.
#[verifier::external_body]
pub(crate) fn find_accounts(data: &str) -> (found: Vec<String>)
    ensures
        texts(found@) == mentioned_accounts(data@),
{
    let pattern = regex::Regex::new(r"([^\s]+\.bit)").unwrap();
    pattern.find_iter(data).map(|found| found.as_str().to_string()).collect()
}

/// The suffix that marks an account name.
pub open spec fn suffix() -> Seq<char> {
    seq!['.', 'b', 'i', 't']
}

/// A name without the suffixes `.bit` at its end, however many there are.
pub open spec fn without_suffix(name: Seq<char>) -> Seq<char>
    decreases name.len(),
{
    if name.len() >= 4 && name.subrange(name.len() - 4, name.len() as int) == suffix() {
        without_suffix(name.subrange(0, name.len() - 4))
    } else {
        name
    }
}

/// Calls `str::trim_end_matches` with the pattern `.bit`. Trusted: it
/// removes that suffix from the end of the text as often as it occurs there.
#[verifier::external_body]
pub(crate) fn strip_suffix(name: &str) -> (rest: &str)
    ensures
        rest@ == without_suffix(name@),
{
    name.trim_end_matches(".bit")
}

/// A character in lower case, where only the letters `A` to `Z` have one.
pub open spec fn lower(c: char) -> char {
    if 'A' <= c && c <= 'Z' {
        ((c as u32) + 32) as char
    } else {
        c
    }
}

/// Calls `str::to_ascii_lowercase`. Trusted: it maps the letters `A` to `Z`
/// to `a` to `z` and leaves every other character as it is.
#[verifier::external_body]
pub(crate) fn to_lowercase(name: &str) -> (out: String)
    ensures
        out@ == name@.map_values(|c: char| lower(c)),
{
    name.to_ascii_lowercase()
}

/// The form under which a mentioned account is listed: without its suffix,
/// in lower case.
pub open spec fn listed_form(name: Seq<char>) -> Seq<char> {
    without_suffix(name).map_values(|c: char| lower(c))
}

/// The accounts that a text mentions, each in its listed form.
pub open spec fn listed_accounts(data: Seq<char>) -> Seq<Seq<char>> {
    mentioned_accounts(data).map_values(|name: Seq<char>| listed_form(name))
}

/// The accounts that several texts mention, text after text.
pub open spec fn collected(sources: Seq<Seq<char>>) -> Seq<Seq<char>>
    decreases sources.len(),
{
    if sources.len() == 0 {
        Seq::<Seq<char>>::empty()
    } else {
        collected(sources.drop_last()) + listed_accounts(sources.last())
    }
}

/// A sequence without the items that repeat the item before them.
pub open spec fn without_repeats(items: Seq<Seq<u8>>) -> Seq<Seq<u8>>
    decreases items.len(),
{
    if items.len() <= 1 {
        items
    } else {
        let before = without_repeats(items.drop_last());
        if items[items.len() - 2] == items.last() {
            before
        } else {
            before.push(items.last())
        }
    }
}

/// Lines joined by line feeds, with none before the first or after the last.
pub open spec fn joined_by_newline(lines: Seq<Seq<u8>>) -> Seq<u8>
    decreases lines.len(),
{
    if lines.len() == 0 {
        Seq::<u8>::empty()
    } else if lines.len() == 1 {
        lines[0]
    } else {
        joined_by_newline(lines.drop_last()) + seq![0x0au8] + lines.last()
    }
}

/// A list of names with every name once, in ascending order of its UTF-8
/// bytes.
pub open spec fn sorted_once(names: Seq<Seq<char>>) -> Seq<Seq<u8>> {
    without_repeats(canonical(utf8_of(names)))
}

/// The list of reserved accounts that several texts give: every account
/// they mention, once, in ascending order of its UTF-8 bytes.
pub open spec fn reserved_list(sources: Seq<Seq<char>>) -> Seq<Seq<u8>> {
    sorted_once(collected(sources))
}

/// Dropping repeats from an ascending sequence leaves every member once:
/// the result has the same members and holds none of them twice.
pub proof fn lemma_without_repeats_is_distinct(items: Seq<Seq<u8>>)
    requires
        sorted_by(items, byte_order()),
    ensures
        without_repeats(items).no_duplicates(),
        forall|x: Seq<u8>| without_repeats(items).contains(x) <==> items.contains(x),
        sorted_by(without_repeats(items), byte_order()),
        items.len() > 0 ==> without_repeats(items).len() > 0 && without_repeats(items).last()
            == items.last(),
    decreases items.len(),
{
    crate::order::lemma_byte_order_total();
    let out = without_repeats(items);
    if items.len() <= 1 {
    } else {
        let init = items.drop_last();
        let last = items.last();
        let before = without_repeats(init);
        assert forall|i: int, j: int| 0 <= i < j < init.len() implies #[trigger] byte_order()(
            init[i],
            init[j],
        ) by {
            assert(byte_order()(items[i], items[j]));
        }
        lemma_without_repeats_is_distinct(init);
        assert(init.last() == items[items.len() - 2]);
        assert forall|x: Seq<u8>| out.contains(x) <==> items.contains(x) by {
            if items.contains(x) {
                let k = choose|k: int| 0 <= k < items.len() && items[k] == x;
                if k < init.len() {
                    assert(init[k] == x);
                    assert(init.contains(x));
                    assert(before.contains(x));
                    let m = choose|m: int| 0 <= m < before.len() && before[m] == x;
                    if out != before {
                        assert(out[m] == x);
                    }
                } else {
                    if items[items.len() - 2] == last {
                        assert(before.last() == last);
                        assert(before[before.len() - 1] == x);
                    } else {
                        assert(out[out.len() - 1] == x);
                    }
                }
            }
            if out.contains(x) {
                let m = choose|m: int| 0 <= m < out.len() && out[m] == x;
                if m < before.len() {
                    assert(before[m] == x);
                    assert(before.contains(x));
                    assert(init.contains(x));
                    let k = choose|k: int| 0 <= k < init.len() && init[k] == x;
                    assert(items[k] == x);
                } else {
                    assert(x == last);
                    assert(items[items.len() - 1] == x);
                }
            }
        }
        if items[items.len() - 2] != last {
            assert forall|i: int, j: int| 0 <= i < j < out.len() implies #[trigger] byte_order()(
                out[i],
                out[j],
            ) by {
                if j < before.len() {
                    assert(byte_order()(before[i], before[j]));
                } else {
                    assert(before.contains(before[i]));
                    assert(init.contains(before[i]));
                    let k = choose|k: int| 0 <= k < init.len() && init[k] == before[i];
                    assert(byte_order()(items[k], items[items.len() - 1]));
                }
            }
            assert forall|i: int, j: int| 0 <= i < out.len() && 0 <= j < out.len() && i
                != j implies out[i] != out[j] by {
                if i < before.len() && j < before.len() {
                } else {
                    let low = if i < j {
                        i
                    } else {
                        j
                    };
                    assert(before.contains(before[low]));
                    assert(init.contains(before[low]));
                    let k = choose|k: int| 0 <= k < init.len() && init[k] == before[low];
                    if before[low] == last {
                        assert(byte_order()(items[k], items[items.len() - 2]) || k == items.len()
                            - 2);
                        assert(byte_order()(items[items.len() - 2], items[items.len() - 1]));
                        assert(byte_order()(init[k], init.last()));
                        assert(byte_order()(init.last(), last));
                        assert(init.last() == last);
                    }
                }
            }
        }
    }
}

/// Drops the items that repeat the item before them.
pub fn drop_repeats(items: &Vec<Vec<u8>>) -> (out: Vec<Vec<u8>>)
    ensures
        byte_strings(out@) == without_repeats(byte_strings(items@)),
{
    let ghost all = byte_strings(items@);
    let mut out: Vec<Vec<u8>> = Vec::new();
    let mut n: usize = 0;
    proof {
        assert(all.take(0) =~= Seq::<Seq<u8>>::empty());
        assert(byte_strings(out@) =~= without_repeats(all.take(0)));
    }
    while n < items.len()
        invariant
            n <= items@.len(),
            all == byte_strings(items@),
            byte_strings(out@) == without_repeats(all.take(n as int)),
        decreases items@.len() - n,
    {
        let ghost before = byte_strings(out@);
        proof {
            let next = all.take(n + 1);
            assert(next.drop_last() =~= all.take(n as int));
            assert(next.last() == all[n as int]);
            if n > 0 {
                assert(next[next.len() - 2] == all[n - 1]);
            }
        }
        let repeats: bool = n > 0 && same_bytes(items[n - 1].as_slice(), items[n].as_slice());
        if !repeats {
            out.push(vstd::slice::slice_to_vec(items[n].as_slice()));
            assert(byte_strings(out@) =~= before.push(all[n as int]));
            assert(n == 0 ==> before.push(all[n as int]) =~= all.take(n + 1));
        }
        n += 1;
    }
    assert(all.take(items@.len() as int) =~= all);
    out
}

/// Whether two byte strings are equal.
pub fn same_bytes(a: &[u8], b: &[u8]) -> (same: bool)
    ensures
        same == (a@ == b@),
{
    if a.len() != b.len() {
        return false;
    }
    let mut i: usize = 0;
    while i < a.len()
        invariant
            i <= a@.len(),
            a@.len() == b@.len(),
            forall|j: int| 0 <= j < i ==> a@[j] == b@[j],
        decreases a@.len() - i,
    {
        if a[i] != b[i] {
            return false;
        }
        i += 1;
    }
    assert(a@ =~= b@);
    true
}

/// Joins lines by line feeds.
pub fn join_by_newline(lines: &Vec<Vec<u8>>) -> (out: Vec<u8>)
    ensures
        out@ == joined_by_newline(byte_strings(lines@)),
{
    let ghost all = byte_strings(lines@);
    let mut out: Vec<u8> = Vec::new();
    let mut n: usize = 0;
    assert(all.take(0) =~= Seq::<Seq<u8>>::empty());
    while n < lines.len()
        invariant
            n <= lines@.len(),
            all == byte_strings(lines@),
            out@ == joined_by_newline(all.take(n as int)),
        decreases lines@.len() - n,
    {
        let ghost before = out@;
        proof {
            let next = all.take(n + 1);
            assert(next.drop_last() =~= all.take(n as int));
            assert(next.last() == all[n as int]);
        }
        if n > 0 {
            out.push(0x0au8);
        }
        out.extend_from_slice(lines[n].as_slice());
        proof {
            if n == 0 {
                assert(out@ =~= all[0]);
            } else {
                assert(out@ =~= before + seq![0x0au8] + all[n as int]);
            }
        }
        n += 1;
    }
    assert(all.take(lines@.len() as int) =~= all);
    out
}

/// Puts mentioned accounts into their listed form: each without its
/// suffix, in lower case.
pub fn listed(found: &Vec<String>) -> (names: Vec<String>)
    ensures
        texts(names@) == texts(found@).map_values(|name: Seq<char>| listed_form(name)),
{
    let mut names: Vec<String> = Vec::with_capacity(found.len());
    let mut n: usize = 0;
    while n < found.len()
        invariant
            n <= found@.len(),
            names@.len() == n,
            forall|i: int| 0 <= i < n ==> (#[trigger] names@[i])@ == listed_form(found@[i]@),
        decreases found@.len() - n,
    {
        names.push(to_lowercase(strip_suffix(found[n].as_str())));
        n += 1;
    }
    assert(texts(names@) =~= texts(found@).map_values(|name: Seq<char>| listed_form(name)));
    names
}

/// The accounts that a text mentions, each in its listed form.
pub fn accounts_in(data: &str) -> (names: Vec<String>)
    ensures
        texts(names@) == listed_accounts(data@),
{
    listed(&find_accounts(data))
}

/// Makes one list of account names: every name once, in ascending order of
/// its UTF-8 bytes, one per line.
pub fn combine_accounts(names: &Vec<String>) -> (out: Vec<u8>)
    ensures
        out@ == joined_by_newline(sorted_once(texts(names@))),
{
    let sorted = sort_byte_strings(&line_bytes(names));
    join_by_newline(&drop_repeats(&sorted))
}

/// Combines the reserved accounts that several texts mention into one list:
/// every account once, in ascending order, one per line.
pub fn combine(sources: &Vec<String>) -> (out: Vec<u8>)
    ensures
        out@ == joined_by_newline(reserved_list(texts(sources@))),
{
    let ghost all = texts(sources@);
    let mut names: Vec<String> = Vec::new();
    let mut n: usize = 0;
    proof {
        assert(all.take(0) =~= Seq::<Seq<char>>::empty());
        assert(texts(names@) =~= collected(all.take(0)));
    }
    while n < sources.len()
        invariant
            n <= sources@.len(),
            all == texts(sources@),
            texts(names@) == collected(all.take(n as int)),
        decreases sources@.len() - n,
    {
        let ghost before = texts(names@);
        let mut found = accounts_in(sources[n].as_str());
        let ghost added = texts(found@);
        names.append(&mut found);
        proof {
            let next = all.take(n + 1);
            assert(next.drop_last() =~= all.take(n as int));
            assert(next.last() == all[n as int]);
            assert(texts(names@) =~= before + added);
        }
        n += 1;
    }
    assert(all.take(sources@.len() as int) =~= all);
    combine_accounts(&names)
}

} // verus!
