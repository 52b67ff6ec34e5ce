//! Small helpers shared by the collectors and the views.

use crate::double::Double;
use crate::json;
use crate::json::Json;
use crate::text;
use vstd::prelude::*;

verus! {

/// How many hosts are probed at the same time. Per-host SSH probes dominate the
/// wall clock of a check, and the cap keeps a large profile from opening one ssh
/// process per host all at once.
pub const MAX_PARALLEL_HOSTS: usize = 8;

pub open spec fn larger(a: int, b: int) -> int {
    if a < b {
        b
    } else {
        a
    }
}

pub open spec fn smaller(a: int, b: int) -> int {
    if a < b {
        a
    } else {
        b
    }
}

/// The length of one batch.
pub open spec fn batch_size(limit: usize) -> int {
    larger(limit as int, 1)
}

/// The ranges of places in which `count` items are worked on: each holds `limit`
/// items, at least one, and the last holds what is left.
pub open spec fn batched(ranges: Seq<(usize, usize)>, count: usize, limit: usize) -> bool {
    &&& forall|i: int|
        0 <= i < ranges.len() ==> (#[trigger] ranges[i]).0 == i * batch_size(limit) && ranges[i].1
            == smaller((i + 1) * batch_size(limit), count as int) && ranges[i].0 < ranges[i].1
    &&& ranges.len() * batch_size(limit) >= count
}

/// The batches in which `count` items are worked on, as ranges of places.
pub fn batches(count: usize, limit: usize) -> (out: Vec<(usize, usize)>)
    ensures
        batched(out@, count, limit),
{
    let size: usize = if limit == 0 {
        1
    } else {
        limit
    };
    let mut out: Vec<(usize, usize)> = Vec::new();
    let mut start: usize = 0;
    assert(0 * size == 0) by (nonlinear_arith);
    while start < count
        invariant
            size == batch_size(limit),
            size > 0,
            start <= count,
            start == smaller(out@.len() * size, count as int),
            forall|i: int|
                0 <= i < out@.len() ==> (#[trigger] out@[i]).0 == i * size && out@[i].1 == smaller(
                    (i + 1) * size,
                    count as int,
                ) && out@[i].0 < out@[i].1,
        decreases count - start,
    {
        let end: usize = if count - start > size {
            start + size
        } else {
            count
        };
        let ghost n = out@.len() as int;
        assert((n + 1) * size == n * size + size) by (nonlinear_arith);
        out.push((start, end));
        start = end;
    }
    out
}

/// Every item is in exactly one batch, the batches follow each other, and none
/// holds more than the limit, at least one.
pub proof fn law_batches_hold_every_item_once(
    ranges: Seq<(usize, usize)>,
    count: usize,
    limit: usize,
    place: usize,
)
    requires
        batched(ranges, count, limit),
        place < count,
    ensures
        exists|i: int|
            0 <= i < ranges.len() && (#[trigger] ranges[i]).0 <= place < ranges[i].1,
        forall|i: int, j: int|
            0 <= i < j < ranges.len() ==> (#[trigger] ranges[i]).1 <= (#[trigger] ranges[j]).0,
        forall|i: int|
            0 <= i < ranges.len() ==> (#[trigger] ranges[i]).1 - ranges[i].0 <= batch_size(limit),
{
    let size = batch_size(limit);
    let at = place as int / size;
    let len = ranges.len() as int;
    assert(0 <= at < len && at * size <= place < (at + 1) * size) by (nonlinear_arith)
        requires
            at == place as int / size,
            size > 0,
            place < count,
            len * size >= count,
    ;
    assert(ranges[at].0 <= place < ranges[at].1);
    assert forall|i: int, j: int| 0 <= i < j < ranges.len() implies (#[trigger] ranges[i]).1 <= (
    #[trigger] ranges[j]).0 by {
        assert((i + 1) * size <= j * size) by (nonlinear_arith)
            requires
                i < j,
                size > 0,
        ;
    }
    assert forall|i: int| 0 <= i < ranges.len() implies (#[trigger] ranges[i]).1 - ranges[i].0
        <= size by {
        assert((i + 1) * size == i * size + size) by (nonlinear_arith);
    }
}

/// The hosts from `from` on and before `to` can be asked at the same time: they
/// are at least one and no more than the limit, and none is named twice.
pub open spec fn fits_batch(hosts: Seq<Seq<char>>, from: int, to: int, limit: usize) -> bool {
    &&& 0 <= from < to <= hosts.len()
    &&& to - from <= batch_size(limit)
    &&& forall|i: int, j: int|
        from <= i < j < to ==> #[trigger] hosts[i] != #[trigger] hosts[j]
}

/// Where the range at `i` has to begin: where the one before it ends.
pub open spec fn start_of(ranges: Seq<(usize, usize)>, i: int) -> usize {
    if i == 0 {
        0
    } else {
        ranges[i - 1].1
    }
}

/// The ranges of places in which hosts are asked: they follow each other from the
/// first place to the last, and each is as long as it can be.
pub open spec fn host_batched(
    ranges: Seq<(usize, usize)>,
    hosts: Seq<Seq<char>>,
    limit: usize,
) -> bool {
    &&& forall|i: int|
        0 <= i < ranges.len() ==> ranges[i].0 == #[trigger] start_of(ranges, i)
    &&& forall|i: int|
        0 <= i < ranges.len() ==> fits_batch(
            hosts,
            (#[trigger] ranges[i]).0 as int,
            ranges[i].1 as int,
            limit,
        ) && !fits_batch(hosts, ranges[i].0 as int, ranges[i].1 + 1, limit)
    &&& start_of(ranges, ranges.len() as int) == hosts.len()
}

/// What the texts say.
pub open spec fn str_views(list: Seq<&str>) -> Seq<Seq<char>> {
    list.map_values(|s: &str| s@)
}

/// The batches in which hosts are asked, as ranges of places. A host that is named
/// twice is asked in two batches, so it sees one connection at a time.
pub fn host_batches(hosts: &[&str], limit: usize) -> (out: Vec<(usize, usize)>)
    ensures
        host_batched(out@, str_views(hosts@), limit),
{
    let ghost all = str_views(hosts@);
    let size: usize = if limit == 0 {
        1
    } else {
        limit
    };
    let mut out: Vec<(usize, usize)> = Vec::new();
    let mut from: usize = 0;
    while from < hosts.len()
        invariant
            all == str_views(hosts@),
            size == batch_size(limit),
            from <= hosts@.len(),
            from == start_of(out@, out@.len() as int),
            forall|i: int| 0 <= i < out@.len() ==> out@[i].0 == #[trigger] start_of(out@, i),
            forall|i: int|
                0 <= i < out@.len() ==> fits_batch(
                    all,
                    (#[trigger] out@[i]).0 as int,
                    out@[i].1 as int,
                    limit,
                ) && !fits_batch(all, out@[i].0 as int, out@[i].1 + 1, limit),
        decreases hosts@.len() - from,
    {
        let mut to: usize = from + 1;
        while to < hosts.len() && to - from < size && !is_among(hosts, from, to)
            invariant
                all == str_views(hosts@),
                size == batch_size(limit),
                fits_batch(all, from as int, to as int, limit),
            decreases hosts@.len() - to,
        {
            to = to + 1;
        }
        proof {
            if to < all.len() && to - from < size {
                let k = choose|k: int| from <= k < to && #[trigger] all[k] == all[to as int];
                assert(all[k] == all[to as int]);
            }
            assert(!fits_batch(all, from as int, to + 1, limit));
        }
        let ghost before = out@;
        out.push((from, to));
        assert forall|i: int| 0 <= i < out@.len() implies out@[i].0 == #[trigger] start_of(
            out@,
            i,
        ) by {
            assert(start_of(out@, i) == start_of(before, i));
        }
        from = to;
    }
    out
}

/// Whether the host at `at` is named from `from` on and before `at`.
fn is_among(hosts: &[&str], from: usize, at: usize) -> (yes: bool)
    requires
        from <= at < hosts@.len(),
    ensures
        yes == exists|k: int|
            from <= k < at && #[trigger] str_views(hosts@)[k] == str_views(hosts@)[at as int],
{
    let ghost all = str_views(hosts@);
    let mut k: usize = from;
    while k < at
        invariant
            from <= k <= at,
            at < hosts@.len(),
            all == str_views(hosts@),
            forall|i: int| from <= i < k ==> #[trigger] all[i] != all[at as int],
        decreases at - k,
    {
        if text::same_text(hosts[k], hosts[at]) {
            assert(all[k as int] == all[at as int]);
            return true;
        }
        assert(all[k as int] != all[at as int]);
        k = k + 1;
    }
    false
}

/// One of the ranges holds `place`.
pub open spec fn in_a_batch(ranges: Seq<(usize, usize)>, place: int) -> bool {
    exists|i: int| 0 <= i < ranges.len() && (#[trigger] ranges[i]).0 <= place < ranges[i].1
}

/// Every host is asked once, in order, and no batch asks a host twice or holds
/// more hosts than the limit, at least one.
pub proof fn law_host_batches_ask_one_at_a_time(
    ranges: Seq<(usize, usize)>,
    hosts: Seq<Seq<char>>,
    limit: usize,
)
    requires
        host_batched(ranges, hosts, limit),
    ensures
        forall|place: int|
            0 <= place < hosts.len() ==> #[trigger] in_a_batch(ranges, place),
        forall|i: int, j: int|
            0 <= i < j < ranges.len() ==> (#[trigger] ranges[i]).1 <= (#[trigger] ranges[j]).0,
        forall|i: int, a: int, b: int|
            #![trigger ranges[i], hosts[a], hosts[b]]
            0 <= i < ranges.len() && ranges[i].0 <= a < b < ranges[i].1 ==> hosts[a] != hosts[b],
        forall|i: int|
            0 <= i < ranges.len() ==> 0 < (#[trigger] ranges[i]).1 - ranges[i].0 <= batch_size(
                limit,
            ),
{
    assert forall|place: int| 0 <= place < hosts.len() implies #[trigger] in_a_batch(
        ranges,
        place,
    ) by {
        assert(start_of(ranges, ranges.len() as int) == hosts.len());
        lemma_batch_of(ranges, hosts, limit, place, ranges.len() as int - 1);
    }
    assert forall|i: int, j: int| 0 <= i < j < ranges.len() implies (#[trigger] ranges[i]).1 <= (
    #[trigger] ranges[j]).0 by {
        lemma_batches_follow(ranges, hosts, limit, i, j);
    }
    assert forall|i: int| 0 <= i < ranges.len() implies 0 < (#[trigger] ranges[i]).1 - ranges[i].0
        <= batch_size(limit) by {
        assert(fits_batch(hosts, ranges[i].0 as int, ranges[i].1 as int, limit));
    }
}

proof fn lemma_batch_of(
    ranges: Seq<(usize, usize)>,
    hosts: Seq<Seq<char>>,
    limit: usize,
    place: int,
    last: int,
)
    requires
        host_batched(ranges, hosts, limit),
        0 <= last < ranges.len(),
        0 <= place < ranges[last].1,
    ensures
        in_a_batch(ranges, place),
    decreases last,
{
    if place < ranges[last].0 {
        assert(ranges[last].0 == start_of(ranges, last));
        lemma_batch_of(ranges, hosts, limit, place, last - 1);
    } else {
        assert(ranges[last].0 <= place < ranges[last].1);
    }
}

proof fn lemma_batches_follow(
    ranges: Seq<(usize, usize)>,
    hosts: Seq<Seq<char>>,
    limit: usize,
    i: int,
    j: int,
)
    requires
        host_batched(ranges, hosts, limit),
        0 <= i < j < ranges.len(),
    ensures
        ranges[i].1 <= ranges[j].0,
    decreases j - i,
{
    assert(ranges[j].0 == start_of(ranges, j));
    if i < j - 1 {
        lemma_batches_follow(ranges, hosts, limit, i, j - 1);
        assert(fits_batch(hosts, ranges[j - 1].0 as int, ranges[j - 1].1 as int, limit));
    }
}

/// What a single quoted shell word holds for `s`: a quote inside it is closed,
/// escaped and opened again.
pub open spec fn quoted_body(s: Seq<char>) -> Seq<char>
    decreases s.len(),
{
    if s.len() == 0 {
        Seq::empty()
    } else if s[0] == '\'' {
        "'\\''"@ + quoted_body(s.drop_first())
    } else {
        seq![s[0]] + quoted_body(s.drop_first())
    }
}

/// `s` as one shell word.
pub open spec fn quoted(s: Seq<char>) -> Seq<char> {
    "'"@ + quoted_body(s) + "'"@
}

/// `input` as one shell word.
pub fn shell_quote(input: &str) -> (out: String)
    ensures
        out@ == quoted(input@),
{
    let chars = text::chars_of(input);
    let mut out = "'".to_owned();
    let mut i: usize = 0;
    assert(input@.skip(0) =~= input@);
    while i < chars.len()
        invariant
            i <= chars@.len(),
            chars@ == input@,
            out@ + quoted_body(input@.skip(i as int)) == "'"@ + quoted_body(input@),
        decreases chars@.len() - i,
    {
        let ghost rest = input@.skip(i as int);
        let ghost before = out@;
        let c = chars[i];
        assert(rest[0] == c);
        i = i + 1;
        assert(rest.drop_first() =~= input@.skip(i as int));
        if c == '\'' {
            out.append("'\\''");
            assert(out@ + quoted_body(input@.skip(i as int)) =~= before + quoted_body(rest));
        } else {
            out.push(c);
            assert(out@ + quoted_body(input@.skip(i as int)) =~= before + quoted_body(rest));
        }
    }
    assert(input@.skip(i as int) =~= Seq::<char>::empty());
    assert(out@ =~= "'"@ + quoted_body(input@));
    out.append("'");
    out
}

/// Characters that mean themselves to a shell outside quotes.
pub open spec fn plain_char(c: char) -> bool {
    ||| 'a' <= c <= 'z'
    ||| 'A' <= c <= 'Z'
    ||| '0' <= c <= '9'
    ||| c == '_'
    ||| c == '-'
    ||| c == '.'
    ||| c == '/'
}

/// The text that a POSIX shell reads from `s` as a single word: single quotes
/// keep what stands between them, a backslash outside quotes keeps the next
/// character. `None` where `s` is no such word.
pub open spec fn shell_reads(s: Seq<char>, in_quotes: bool) -> Option<Seq<char>>
    decreases s.len(),
{
    if s.len() == 0 {
        if in_quotes {
            None
        } else {
            Some(Seq::empty())
        }
    } else if s[0] == '\'' {
        shell_reads(s.drop_first(), !in_quotes)
    } else if in_quotes || plain_char(s[0]) {
        match shell_reads(s.drop_first(), in_quotes) {
            Some(rest) => Some(seq![s[0]] + rest),
            None => None,
        }
    } else if s[0] == '\\' && s.len() > 1 && s[1] != '\n' {
        match shell_reads(s.skip(2), in_quotes) {
            Some(rest) => Some(seq![s[1]] + rest),
            None => None,
        }
    } else {
        None
    }
}

proof fn lemma_body_reads(s: Seq<char>)
    ensures
        shell_reads(quoted_body(s) + "'"@, true) == Some(s),
    decreases s.len(),
{
    reveal_strlit("'");
    reveal_strlit("'\\''");
    let word = quoted_body(s) + "'"@;
    if s.len() == 0 {
        assert(word =~= seq!['\'']);
        assert(word.drop_first() =~= Seq::<char>::empty());
        assert(shell_reads(Seq::<char>::empty(), false) == Some(Seq::<char>::empty()));
        assert(s =~= Seq::<char>::empty());
    } else {
        let rest = s.drop_first();
        lemma_body_reads(rest);
        let tail = quoted_body(rest) + "'"@;
        assert(s =~= seq![s[0]] + rest);
        if s[0] == '\'' {
            let escaped = word.drop_first();
            assert(escaped =~= seq!['\\', '\'', '\''] + tail);
            let opened = escaped.skip(2);
            assert(opened =~= seq!['\''] + tail);
            assert(opened.drop_first() =~= tail);
            assert(shell_reads(opened, false) == Some(rest));
            assert(shell_reads(escaped, false) == Some(seq!['\''] + rest));
        } else {
            assert(word =~= seq![s[0]] + tail);
            assert(word.drop_first() =~= tail);
        }
    }
}

/// A shell reads a quoted text back as that text, whatever it holds.
pub proof fn law_shell_reads_quoted_text_back(s: Seq<char>)
    ensures
        shell_reads(quoted(s), false) == Some(s),
{
    reveal_strlit("'");
    lemma_body_reads(s);
    assert(quoted(s).drop_first() =~= quoted_body(s) + "'"@);
}

/// The first `n` characters of `s`, or all of it where it is shorter.
pub open spec fn shortened(s: Seq<char>, n: int) -> Seq<char> {
    s.take(smaller(n, s.len() as int))
}

/// The first `len` characters of `value`.
pub fn short(value: &str, len: usize) -> (out: String)
    ensures
        out@ == shortened(value@, len as int),
{
    let chars = text::chars_of(value);
    let to: usize = if len < chars.len() {
        len
    } else {
        chars.len()
    };
    let out = text::text_between(&chars, 0, to);
    assert(out@ =~= value@.take(to as int));
    out
}

/// The furthest scroll position at which a window of `visible` rows, at least
/// one, is still full.
pub open spec fn last_scroll(total: usize, visible: usize) -> int {
    larger(total - larger(visible as int, 1), 0)
}

/// A clamped position stays where it is, and no row that could fill the window is
/// left out of it.
pub proof fn law_clamped_scroll_stays(scroll: usize, total: usize, visible: usize)
    ensures
        ({
            let last = last_scroll(total, visible);
            let clamped = smaller(scroll as int, last);
            &&& 0 <= clamped <= scroll
            &&& smaller(clamped, last) == clamped
            &&& clamped + larger(visible as int, 1) <= total || clamped == 0
        }),
{
}

/// `scroll`, moved back to the last position that fills the window.
pub fn clamp_top_scroll(scroll: usize, total: usize, visible: usize) -> (out: usize)
    ensures
        out == smaller(scroll as int, last_scroll(total, visible)),
{
    let window: usize = if visible < 1 {
        1
    } else {
        visible
    };
    let last: usize = if total < window {
        0
    } else {
        total - window
    };
    if scroll < last {
        scroll
    } else {
        last
    }
}

/// `scroll`, counted from the end, moved back to the last position that fills
/// the window.
pub fn clamp_bottom_scroll(scroll: usize, total: usize, visible: usize) -> (out: usize)
    ensures
        out == smaller(scroll as int, last_scroll(total, visible)),
{
    clamp_top_scroll(scroll, total, visible)
}

/// The text at the JSON pointer `path`; empty where there is none.
pub fn ptr_str(value: &Json, path: &str) -> (out: String)
    ensures
        out@ == json::text_at(value.tree(), path@),
{
    match value.pointer(path) {
        Some(found) => match found.as_str() {
            Some(s) => s.to_owned(),
            None => String::new(),
        },
        None => String::new(),
    }
}

/// The unsigned number at the JSON pointer `path`; zero where there is none.
pub fn ptr_u64(value: &Json, path: &str) -> (out: u64)
    ensures
        out == json::u64_at(value.tree(), path@),
{
    match value.pointer(path) {
        Some(found) => match found.as_u64() {
            Some(n) => n,
            None => 0,
        },
        None => 0,
    }
}

/// The signed number at the JSON pointer `path`; zero where there is none.
pub fn ptr_i64(value: &Json, path: &str) -> (out: i64)
    ensures
        out == json::i64_at(value.tree(), path@),
{
    match value.pointer(path) {
        Some(found) => match found.as_i64() {
            Some(n) => n,
            None => 0,
        },
        None => 0,
    }
}

/// The floating point number at the JSON pointer `path`; zero where there is none.
pub fn ptr_f64(value: &Json, path: &str) -> (out: Double)
    ensures
        out == json::double_at(value.tree(), path@),
{
    match value.pointer(path) {
        Some(found) => match found.as_double() {
            Some(x) => x,
            None => Double { bits: 0 },
        },
        None => Double { bits: 0 },
    }
}

/// A batch is as large as the limit allows, and never empty.
pub proof fn law_batches_are_as_large_as_allowed(limit: usize)
    ensures
        limit > 0 ==> batch_size(limit) == limit,
        limit == 0 ==> batch_size(limit) == 1,
{
}

/// A shortened text is the start of the text: all of it where it is no longer than
/// allowed, and as many of its characters as are allowed otherwise.
pub proof fn law_shortened_text_is_its_start(s: Seq<char>, n: usize)
    ensures
        s.len() <= n ==> shortened(s, n as int) == s,
        s.len() > n ==> shortened(s, n as int).len() == n,
        forall|i: int|
            0 <= i < shortened(s, n as int).len() ==> #[trigger] shortened(s, n as int)[i] == s[i],
{
    if s.len() <= n {
        assert(shortened(s, n as int) =~= s);
    }
}

/// A position from which the rows fill the window is kept. From any other the window
/// moves back until they do, or to the first row where there are too few.
pub proof fn law_scroll_moves_back_only_to_fill_the_window(
    scroll: usize,
    total: usize,
    visible: usize,
)
    requires
        visible > 0,
    ensures
        ({
            let clamped = smaller(scroll as int, last_scroll(total, visible));
            &&& scroll + visible <= total ==> clamped == scroll
            &&& scroll + visible > total && visible <= total ==> clamped + visible == total
            &&& visible > total ==> clamped == 0
            &&& smaller(scroll as int, last_scroll(total, 0)) == smaller(
                scroll as int,
                last_scroll(total, 1),
            )
        }),
{
}

/// Every batch but the last is full.
pub proof fn law_batches_are_full(
    ranges: Seq<(usize, usize)>,
    count: usize,
    limit: usize,
    i: int,
)
    requires
        batched(ranges, count, limit),
        limit > 0,
        0 <= i < ranges.len(),
    ensures
        i + 1 < ranges.len() ==> ranges[i].1 - ranges[i].0 == limit,
        i + 1 == ranges.len() ==> ranges[i].1 == count,
        ranges[i].0 == i * limit,
{
    let size = batch_size(limit);
    assert((i + 1) * size == i * size + size) by (nonlinear_arith);
    if i + 1 < ranges.len() {
        assert(ranges[i + 1].0 < ranges[i + 1].1);
        assert(ranges[i + 1].1 <= count);
    }
}

/// A batch of hosts ends only where it is full or the next host is in it already.
pub proof fn law_host_batches_are_as_long_as_they_can_be(
    ranges: Seq<(usize, usize)>,
    hosts: Seq<Seq<char>>,
    limit: usize,
    i: int,
)
    requires
        host_batched(ranges, hosts, limit),
        limit > 0,
        0 <= i < ranges.len(),
        ranges[i].1 < hosts.len(),
    ensures
        ranges[i].1 - ranges[i].0 == limit || exists|k: int|
            ranges[i].0 <= k < ranges[i].1 && #[trigger] hosts[k] == hosts[ranges[i].1 as int],
{
    let (from, to) = (ranges[i].0 as int, ranges[i].1 as int);
    assert(fits_batch(hosts, from, to, limit));
    assert(!fits_batch(hosts, from, to + 1, limit));
    if to - from < limit {
        let (a, b) = choose|a: int, b: int|
            from <= a < b < to + 1 && #[trigger] hosts[a] == #[trigger] hosts[b];
        if b < to {
            assert(hosts[a] != hosts[b]);
        }
        assert(b == to);
        assert(hosts[a] == hosts[to]);
    }
}

} // verus!
