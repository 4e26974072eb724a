//! The CSV form of a collection: a header line, then one line per entry.
use vstd::prelude::*;

use crate::error::StorageError;
use crate::text::{chars_of, char_digit, digit_char, normalize, push_char};
use crate::text::normalized;
use crate::todo::{valid_items, ItemView, ListView, TodoItem, TodoList};

verus! {

/// The character that stands for the digit `d`.
pub open spec fn digit_of(d: nat) -> char {
    ((d + 48) as u32) as char
}

/// The decimal numeral of `n`, without sign or leading zeros.
pub open spec fn decimal(n: nat) -> Seq<char>
    decreases n,
{
    if n < 10 {
        seq![digit_of(n)]
    } else {
        decimal(n / 10).push(digit_of(n % 10))
    }
}

/// `Id,Description,Done`
pub open spec fn csv_header() -> Seq<char> {
    seq!['I', 'd', ',', 'D', 'e', 's', 'c', 'r', 'i', 'p', 't', 'i', 'o', 'n', ',', 'D', 'o', 'n', 'e']
}

/// How a completion flag is written.
pub open spec fn flag_text(b: bool) -> Seq<char> {
    if b {
        seq!['t', 'r', 'u', 'e']
    } else {
        seq!['f', 'a', 'l', 's', 'e']
    }
}

/// The line of one entry, without its line break: `id,description,done`.
pub open spec fn csv_row(it: ItemView) -> Seq<char> {
    decimal(it.id as nat) + seq![','] + it.description + seq![','] + flag_text(it.done)
}

/// The lines of `items`, each ended by a line break.
pub open spec fn csv_rows(items: Seq<ItemView>) -> Seq<char>
    decreases items.len(),
{
    if items.len() == 0 {
        seq![]
    } else {
        csv_row(items[0]) + seq!['\n'] + csv_rows(items.skip(1))
    }
}

/// The whole CSV text of `items`.
pub open spec fn csv_text(items: Seq<ItemView>) -> Seq<char> {
    csv_header() + seq!['\n'] + csv_rows(items)
}

/// The first position at or after `i` that holds `c`, or the length of `s`.
pub open spec fn next_index(s: Seq<char>, c: char, i: int) -> int
    decreases s.len() - i,
{
    if 0 <= i < s.len() {
        if s[i] == c {
            i
        } else {
            next_index(s, c, i + 1)
        }
    } else {
        s.len() as int
    }
}

pub proof fn lemma_next_index(s: Seq<char>, c: char, i: int)
    requires
        0 <= i <= s.len(),
    ensures
        i <= next_index(s, c, i) <= s.len(),
        next_index(s, c, i) < s.len() ==> s[next_index(s, c, i)] == c,
        forall|k: int| i <= k < next_index(s, c, i) ==> s[k] != c,
    decreases s.len() - i,
{
    if i < s.len() && s[i] != c {
        lemma_next_index(s, c, i + 1);
    }
}

/// A line without the carriage return that may end it.
pub open spec fn strip_cr(l: Seq<char>) -> Seq<char> {
    if l.len() > 0 && l.last() == '\r' {
        l.drop_last()
    } else {
        l
    }
}

/// The lines of `s` that start at or after position `p`: pieces between line
/// breaks, where a break at the very end opens no further line.
pub open spec fn lines_from(s: Seq<char>, p: int) -> Seq<Seq<char>>
    decreases s.len() + 1 - p
    via lines_from_decreases

{
    if 0 <= p < s.len() {
        let e = next_index(s, '\n', p);
        seq![strip_cr(s.subrange(p, e))] + lines_from(s, e + 1)
    } else {
        seq![]
    }
}

#[via_fn]
proof fn lines_from_decreases(s: Seq<char>, p: int) {
    if 0 <= p < s.len() {
        lemma_next_index(s, '\n', p);
    }
}

/// The lines of a CSV text that follow its header line.
pub open spec fn csv_data_lines(s: Seq<char>) -> Seq<Seq<char>> {
    let ls = lines_from(s, 0);
    if ls.len() == 0 {
        ls
    } else {
        ls.skip(1)
    }
}

/// The three fields of a line, split at its first two commas.
pub open spec fn csv_fields(l: Seq<char>) -> Option<(Seq<char>, Seq<char>, Seq<char>)> {
    let a = next_index(l, ',', 0);
    let b = next_index(l, ',', a + 1);
    if a < l.len() && b < l.len() {
        Some((l.take(a), l.subrange(a + 1, b), l.skip(b + 1)))
    } else {
        None
    }
}

/// White space that is ignored around an id: the Unicode White_Space
/// characters.
pub open spec fn is_space(c: char) -> bool {
    ('\t' <= c && c <= '\r') || c == ' ' || c == '\u{85}' || c == '\u{a0}' || c == '\u{1680}'
        || ('\u{2000}' <= c && c <= '\u{200a}') || c == '\u{2028}' || c == '\u{2029}'
        || c == '\u{202f}' || c == '\u{205f}' || c == '\u{3000}'
}

pub open spec fn trim_start_at(s: Seq<char>, i: int) -> int
    decreases s.len() - i,
{
    if 0 <= i < s.len() && is_space(s[i]) {
        trim_start_at(s, i + 1)
    } else {
        i
    }
}

pub open spec fn trim_end_at(s: Seq<char>, j: int) -> int
    decreases j,
{
    if 0 < j <= s.len() && is_space(s[j - 1]) {
        trim_end_at(s, j - 1)
    } else {
        j
    }
}

/// `s` without leading and trailing white space.
pub open spec fn trimmed(s: Seq<char>) -> Seq<char> {
    let a = trim_start_at(s, 0);
    let b = trim_end_at(s, s.len() as int);
    if a < b {
        s.subrange(a, b)
    } else {
        seq![]
    }
}

pub open spec fn is_digit(c: char) -> bool {
    '0' <= c && c <= '9'
}

/// The number that a string of decimal digits denotes.
pub open spec fn digits_value(s: Seq<char>) -> nat
    decreases s.len(),
{
    if s.len() == 0 {
        0
    } else {
        digits_value(s.drop_last()) * 10 + ((s.last() as int) - 48) as nat
    }
}

/// The digits of a number: `t` without the `+` that may lead it.
pub open spec fn unsigned_digits(t: Seq<char>) -> Seq<char> {
    if t.len() > 0 && t[0] == '+' {
        t.skip(1)
    } else {
        t
    }
}

/// An unsigned 32-bit number in decimal, with an optional leading `+`.
pub open spec fn parse_u32(t: Seq<char>) -> Option<u32> {
    let d = unsigned_digits(t);
    if d.len() > 0 && (forall|k: int| 0 <= k < d.len() ==> is_digit(#[trigger] d[k]))
        && digits_value(d) <= u32::MAX {
        Some(digits_value(d) as u32)
    } else {
        None
    }
}

/// The entry that a data line describes: its id, its description in normal
/// form, and whether its third field reads `true`.
pub open spec fn csv_item(l: Seq<char>) -> Option<ItemView> {
    match csv_fields(l) {
        None => None,
        Some(f) => match parse_u32(trimmed(f.0)) {
            None => None,
            Some(id) => Some(
                ItemView { id: id, description: normalized(f.1), done: f.2 == flag_text(true) },
            ),
        },
    }
}

/// One more than the largest id of `items`, or 0 when there is none.
pub open spec fn id_after(items: Seq<ItemView>) -> nat
    decreases items.len(),
{
    if items.len() == 0 {
        0
    } else {
        let m = id_after(items.drop_last());
        let n = items.last().id as nat + 1;
        if m < n {
            n
        } else {
            m
        }
    }
}

/// The collection that a CSV text describes, if it describes one: every data
/// line must give an entry, the entries must fit together, and the next id is
/// one more than the largest id.
pub open spec fn csv_decode(s: Seq<char>) -> Option<ListView> {
    let ls = csv_data_lines(s);
    if forall|k: int| 0 <= k < ls.len() ==> (#[trigger] csv_item(ls[k])) is Some {
        let items = Seq::new(ls.len(), |k: int| csv_item(ls[k])->0);
        if id_after(items) <= u32::MAX && valid_items(items, id_after(items) as u32) {
            Some(ListView { items: items, next_id: id_after(items) as u32 })
        } else {
            None
        }
    } else {
        None
    }
}

/// The first position at or after `i` that holds `c`, or the length of `s`.
fn find_from(s: &Vec<char>, c: char, i: usize) -> (r: usize)
    requires
        i <= s.len(),
    ensures
        r == next_index(s@, c, i as int),
{
    let mut j: usize = i;
    while j < s.len() && s[j] != c
        invariant
            i <= j <= s.len(),
            next_index(s@, c, i as int) == next_index(s@, c, j as int),
        decreases s.len() - j,
    {
        j = j + 1;
    }
    j
}

/// The characters of `s` from `lo` up to `hi`.
fn sub_chars(s: &Vec<char>, lo: usize, hi: usize) -> (r: Vec<char>)
    requires
        lo <= hi <= s.len(),
    ensures
        r@ == s@.subrange(lo as int, hi as int),
{
    let mut r: Vec<char> = Vec::new();
    let mut k: usize = lo;
    while k < hi
        invariant
            lo <= k <= hi <= s.len(),
            r@ == s@.subrange(lo as int, k as int),
        decreases hi - k,
    {
        r.push(s[k]);
        k = k + 1;
        assert(r@ =~= s@.subrange(lo as int, k as int));
    }
    r
}

/// The string made of the characters of `v`.
fn string_of(v: &Vec<char>) -> (r: String)
    ensures
        r@ == v@,
{
    let mut r = String::new();
    let mut k: usize = 0;
    while k < v.len()
        invariant
            k <= v.len(),
            r@ == v@.take(k as int),
        decreases v.len() - k,
    {
        push_char(&mut r, v[k]);
        k = k + 1;
        assert(r@ =~= v@.take(k as int));
    }
    assert(v@.take(k as int) =~= v@);
    r
}

fn space(c: char) -> (r: bool)
    ensures
        r == is_space(c),
{
    ('\t' <= c && c <= '\r') || c == ' ' || c == '\u{85}' || c == '\u{a0}' || c == '\u{1680}'
        || ('\u{2000}' <= c && c <= '\u{200a}') || c == '\u{2028}' || c == '\u{2029}'
        || c == '\u{202f}' || c == '\u{205f}' || c == '\u{3000}'
}

/// `s` without leading and trailing white space.
pub(crate) fn trim_chars(s: &Vec<char>) -> (r: Vec<char>)
    ensures
        r@ == trimmed(s@),
{
    let mut a: usize = 0;
    while a < s.len() && space(s[a])
        invariant
            a <= s.len(),
            trim_start_at(s@, 0) == trim_start_at(s@, a as int),
        decreases s.len() - a,
    {
        a = a + 1;
    }
    let mut b: usize = s.len();
    while b > 0 && space(s[b - 1])
        invariant
            b <= s.len(),
            trim_end_at(s@, s@.len() as int) == trim_end_at(s@, b as int),
        decreases b,
    {
        b = b - 1;
    }
    if a < b {
        sub_chars(s, a, b)
    } else {
        Vec::new()
    }
}

/// The number that `t` writes in decimal, if it writes one that fits.
pub(crate) fn parse_id(t: &Vec<char>) -> (r: Option<u32>)
    ensures
        r == parse_u32(t@),
{
    let start: usize = if t.len() > 0 && t[0] == '+' {
        1
    } else {
        0
    };
    let ghost d = t@.skip(start as int);
    assert(d == unsigned_digits(t@));
    if start == t.len() {
        return None;
    }
    let mut value: u64 = 0;
    let mut over = false;
    let mut k: usize = start;
    while k < t.len()
        invariant
            start <= k <= t.len(),
            d == t@.skip(start as int),
            d == unsigned_digits(t@),
            forall|m: int| start <= m < k ==> is_digit(#[trigger] t@[m]),
            !over ==> value == digits_value(t@.subrange(start as int, k as int)),
            !over ==> value <= u32::MAX,
            over ==> digits_value(t@.subrange(start as int, k as int)) > u32::MAX,
        decreases t.len() - k,
    {
        let c = t[k];
        if !('0' <= c && c <= '9') {
            assert(d[k - start] == t@[k as int]);
            assert(!is_digit(d[k - start]));
            assert(!(forall|m: int| 0 <= m < d.len() ==> is_digit(#[trigger] d[m])));
            return None;
        }
        let ghost prev = t@.subrange(start as int, k as int);
        let ghost next = t@.subrange(start as int, k + 1);
        assert(next.drop_last() =~= prev);
        assert(digits_value(next) == digits_value(prev) * 10 + ((c as int) - 48) as nat);
        if !over {
            value = value * 10 + char_digit(c) as u64;
            if value > u32::MAX as u64 {
                over = true;
            }
        } else {
            assert(digits_value(next) > u32::MAX) by (nonlinear_arith)
                requires
                    digits_value(prev) > u32::MAX,
                    digits_value(next) == digits_value(prev) * 10 + ((c as int) - 48) as nat,
            ;
        }
        k = k + 1;
    }
    assert(t@.subrange(start as int, k as int) =~= d);
    assert(forall|m: int| 0 <= m < d.len() ==> is_digit(#[trigger] d[m])) by {
        assert forall|m: int| 0 <= m < d.len() implies is_digit(#[trigger] d[m]) by {
            assert(d[m] == t@[m + start]);
        }
    }
    if over {
        None
    } else {
        Some(value as u32)
    }
}

/// Whether the characters of `l` from `from` on read `true`.
fn reads_true(l: &Vec<char>, from: usize) -> (r: bool)
    requires
        from <= l.len(),
    ensures
        r == (l@.skip(from as int) == flag_text(true)),
{
    let r = l.len() - from == 4 && l[from] == 't' && l[from + 1] == 'r' && l[from + 2] == 'u'
        && l[from + 3] == 'e';
    proof {
        let tail = l@.skip(from as int);
        if r {
            assert(tail =~= flag_text(true));
        }
        if tail == flag_text(true) {
            assert(tail.len() == 4);
            assert(tail[0] == l@[from as int] && tail[1] == l@[from + 1] && tail[2] == l@[from + 2]
                && tail[3] == l@[from + 3]);
            assert(tail[0] == 't' && tail[1] == 'r' && tail[2] == 'u' && tail[3] == 'e');
        }
    }
    r
}

/// The entry that a data line describes, if it describes one.
fn parse_line(l: &Vec<char>) -> (r: Option<TodoItem>)
    ensures
        match r {
            Some(t) => csv_item(l@) == Some(t@),
            None => csv_item(l@) is None,
        },
{
    let a = find_from(l, ',', 0);
    if a >= l.len() {
        return None;
    }
    let b = find_from(l, ',', a + 1);
    proof {
        lemma_next_index(l@, ',', a + 1);
    }
    if b >= l.len() {
        return None;
    }
    let f0 = sub_chars(l, 0, a);
    assert(f0@ =~= l@.take(a as int));
    let id = match parse_id(&trim_chars(&f0)) {
        Some(id) => id,
        None => {
            return None;
        },
    };
    let f1 = sub_chars(l, a + 1, b);
    let key = normalize(string_of(&f1).as_str());
    let mut item = TodoItem::build(id, key);
    if reads_true(l, b + 1) {
        item.update();
    }
    Some(item)
}

impl TodoList {
    /// The collection that a CSV text describes: the first line is taken as
    /// the header and skipped; each further line gives one entry, split at
    /// its first two commas into id, description and flag. The id may be
    /// surrounded by white space; the description is normalized; the flag is
    /// set when the third field reads `true`. The next id is one more than
    /// the largest id, or 0 when there is no entry. A line without two
    /// commas, an id that is not a number, two entries with one description
    /// or one id, or a largest id that leaves no next id make the text
    /// malformed.
    pub fn from_csv(text: &str) -> (r: Result<TodoList, StorageError>)
        ensures
            match r {
                Ok(l) => l.wf() && csv_decode(text@) == Some(l@),
                Err(e) => e == StorageError::MalformedStorage && csv_decode(text@) is None,
            },
    {
        let s = chars_of(text);
        let n = s.len();
        let mut p: usize = 0;
        let mut first = true;
        let mut items: Vec<TodoItem> = Vec::new();
        let mut after: u64 = 0;
        let ghost mut seen: Seq<Seq<char>> = seq![];
        while p < n
            invariant
                n == s@.len(),
                s@ == text@,
                p <= n,
                lines_from(s@, 0) == seen + lines_from(s@, p as int),
                first <==> seen.len() == 0,
                forall|k: int| 1 <= k < seen.len() ==> (#[trigger] csv_item(seen[k])) is Some,
                !first ==> items@.map_values(|t: TodoItem| t@) == Seq::new(
                    (seen.len() - 1) as nat,
                    |k: int| csv_item(seen[k + 1])->0,
                ),
                first ==> items@.len() == 0,
                after == id_after(items@.map_values(|t: TodoItem| t@)),
                after <= u32::MAX + 1,
            decreases n - p,
        {
            let e = find_from(&s, '\n', p);
            proof {
                lemma_next_index(s@, '\n', p as int);
            }
            let mut hi = e;
            if hi > p && s[hi - 1] == '\r' {
                hi = hi - 1;
            }
            let line = sub_chars(&s, p, hi);
            let ghost this = strip_cr(s@.subrange(p as int, e as int));
            assert(line@ =~= this);
            let ghost old_items = items@.map_values(|t: TodoItem| t@);
            let next_p = if e < n {
                e + 1
            } else {
                n
            };
            assert(lines_from(s@, e + 1) == lines_from(s@, next_p as int)) by {
                if e == n {
                    assert(lines_from(s@, e + 1) == Seq::<Seq<char>>::empty());
                    assert(lines_from(s@, n as int) == Seq::<Seq<char>>::empty());
                }
            }
            assert(lines_from(s@, p as int) == seq![this] + lines_from(s@, next_p as int));
            if first {
                first = false;
                assert(items@.map_values(|t: TodoItem| t@) =~= Seq::new(
                    (seq![this].len() - 1) as nat,
                    |k: int| csv_item(seq![this][k + 1])->0,
                ));
            } else {
                match parse_line(&line) {
                    Some(it) => {
                        let id = it.id();
                        if after < id as u64 + 1 {
                            after = id as u64 + 1;
                        }
                        items.push(it);
                        proof {
                            let nv = items@.map_values(|t: TodoItem| t@);
                            assert(nv =~= old_items.push(it@));
                            assert(nv.drop_last() =~= old_items);
                        }
                    },
                    None => {
                        proof {
                            let all = lines_from(s@, 0);
                            assert(all == seen + (seq![this] + lines_from(s@, next_p as int)));
                            let ls = csv_data_lines(text@);
                            assert(ls[seen.len() - 1] == this);
                            assert(csv_item(ls[seen.len() - 1]) is None);
                        }
                        return Err(StorageError::MalformedStorage);
                    },
                }
            }
            proof {
                let seen2 = seen.push(this);
                assert(seen + (seq![this] + lines_from(s@, next_p as int)) =~= seen2 + lines_from(
                    s@,
                    next_p as int,
                ));
                assert(items@.map_values(|t: TodoItem| t@) =~= Seq::new(
                    (seen2.len() - 1) as nat,
                    |k: int| csv_item(seen2[k + 1])->0,
                ));
                seen = seen2;
            }
            p = next_p;
        }
        let ghost v = items@.map_values(|t: TodoItem| t@);
        proof {
            assert(lines_from(s@, p as int) =~= seq![]);
            assert(seen =~= lines_from(s@, 0));
            let ls = csv_data_lines(text@);
            if !first {
                assert(ls =~= seen.skip(1));
            } else {
                assert(ls =~= seq![]);
            }
            assert(v =~= Seq::new(ls.len(), |k: int| csv_item(ls[k])->0));
        }
        if after > u32::MAX as u64 {
            return Err(StorageError::MalformedStorage);
        }
        match TodoList::from_items(items, after as u32) {
            Some(l) => Ok(l),
            None => Err(StorageError::MalformedStorage),
        }
    }
}

/// A description that the CSV form carries unchanged: it holds no comma and
/// no line break.
pub open spec fn csv_safe(d: Seq<char>) -> bool {
    forall|k: int| 0 <= k < d.len() ==> (#[trigger] d[k]) != ',' && d[k] != '\n'
}

pub proof fn lemma_next_index_at(s: Seq<char>, c: char, p: int, q: int)
    requires
        0 <= p <= q < s.len(),
        s[q] == c,
        forall|k: int| p <= k < q ==> s[k] != c,
    ensures
        next_index(s, c, p) == q,
    decreases q - p,
{
    if p < q {
        lemma_next_index_at(s, c, p + 1, q);
    }
}

pub proof fn lemma_decimal(n: nat)
    ensures
        decimal(n).len() > 0,
        forall|k: int| 0 <= k < decimal(n).len() ==> is_digit(#[trigger] decimal(n)[k]),
        digits_value(decimal(n)) == n,
    decreases n,
{
    let d = n % 10;
    assert(digit_of(d) as int == d + 48);
    if n >= 10 {
        lemma_decimal(n / 10);
        let s = decimal(n);
        assert(s.drop_last() =~= decimal(n / 10));
        assert(s.last() == digit_of(d));
        assert forall|k: int| 0 <= k < s.len() implies is_digit(#[trigger] s[k]) by {
            if k < s.len() - 1 {
                assert(s[k] == decimal(n / 10)[k]);
            }
        }
    } else {
        assert(decimal(n).drop_last() =~= seq![]);
        assert(digits_value(seq![]) == 0);
    }
}

/// A nonempty string that neither starts nor ends with white space is its
/// own trimmed form.
pub proof fn lemma_trimmed_plain(s: Seq<char>)
    requires
        s.len() > 0,
        !is_space(s[0]),
        !is_space(s.last()),
    ensures
        trimmed(s) == s,
{
    assert(trim_start_at(s, 0) == 0);
    assert(trim_end_at(s, s.len() as int) == s.len());
    assert(s.subrange(0, s.len() as int) =~= s);
}

pub proof fn lemma_parse_decimal(n: u32)
    ensures
        csv_id_text_parses(decimal(n as nat), n),
{
    let t = decimal(n as nat);
    lemma_decimal(n as nat);
    assert(is_digit(t[0]) && is_digit(t.last()));
    lemma_trimmed_plain(t);
    assert(unsigned_digits(t) == t);
}

/// `t` reads back as `n` where an id is expected.
pub open spec fn csv_id_text_parses(t: Seq<char>, n: u32) -> bool {
    parse_u32(trimmed(t)) == Some(n)
}

/// The line of an entry with a safe description splits into its three parts,
/// holds no line break and ends with a letter.
pub proof fn lemma_row(it: ItemView)
    requires
        csv_safe(it.description),
    ensures
        forall|k: int| 0 <= k < csv_row(it).len() ==> #[trigger] csv_row(it)[k] != '\n',
        strip_cr(csv_row(it)) == csv_row(it),
        csv_fields(csv_row(it)) == Some(
            (decimal(it.id as nat), it.description, flag_text(it.done)),
        ),
{
    let dec = decimal(it.id as nat);
    let desc = it.description;
    let flag = flag_text(it.done);
    let row = csv_row(it);
    lemma_decimal(it.id as nat);
    assert(row == dec + seq![','] + desc + seq![','] + flag);
    let a = dec.len() as int;
    let b = a + 1 + desc.len();
    assert forall|k: int| 0 <= k < row.len() implies #[trigger] row[k] != '\n' by {
        if k < a {
            assert(row[k] == dec[k]);
            assert(is_digit(dec[k]));
        } else if k == a {
        } else if k < b {
            assert(row[k] == desc[k - a - 1]);
        } else if k == b {
        } else {
            assert(row[k] == flag[k - b - 1]);
        }
    }
    assert(row.last() == 'e');
    assert(row[a] == ',');
    assert forall|k: int| 0 <= k < a implies row[k] != ',' by {
        assert(row[k] == dec[k]);
        assert(is_digit(dec[k]));
    }
    lemma_next_index_at(row, ',', 0, a);
    assert(row[b] == ',');
    assert forall|k: int| a + 1 <= k < b implies row[k] != ',' by {
        assert(row[k] == desc[k - a - 1]);
    }
    lemma_next_index_at(row, ',', a + 1, b);
    assert(row.take(a) =~= dec);
    assert(row.subrange(a + 1, b) =~= desc);
    assert(row.skip(b + 1) =~= flag);
}

/// The lines that start where `prefix` ends, in `prefix` followed by the
/// lines of `items`, are those lines.
pub proof fn lemma_lines_of_rows(prefix: Seq<char>, items: Seq<ItemView>)
    requires
        forall|i: int| 0 <= i < items.len() ==> csv_safe(#[trigger] items[i].description),
    ensures
        lines_from(prefix + csv_rows(items), prefix.len() as int) == items.map_values(
            |it: ItemView| csv_row(it),
        ),
    decreases items.len(),
{
    let s = prefix + csv_rows(items);
    let p = prefix.len() as int;
    if items.len() == 0 {
        assert(csv_rows(items) =~= seq![]);
        assert(s.len() == p);
        assert(items.map_values(|it: ItemView| csv_row(it)) =~= seq![]);
    } else {
        let it = items[0];
        let row = csv_row(it);
        assert(csv_safe(items[0].description));
        lemma_row(it);
        let rest = items.skip(1);
        assert forall|i: int| 0 <= i < rest.len() implies csv_safe(#[trigger] rest[i].description) by {
            assert(rest[i] == items[i + 1]);
        }
        let prefix2 = prefix + row + seq!['\n'];
        assert(s =~= prefix2 + csv_rows(rest));
        lemma_lines_of_rows(prefix2, rest);
        let e = p + row.len();
        assert(s[e] == '\n');
        assert forall|k: int| p <= k < e implies s[k] != '\n' by {
            assert(s[k] == row[k - p]);
        }
        lemma_next_index_at(s, '\n', p, e);
        assert(s.subrange(p, e) =~= row);
        assert(prefix2.len() == e + 1);
        assert(items.map_values(|it: ItemView| csv_row(it)) =~= seq![row] + rest.map_values(
            |it: ItemView| csv_row(it),
        ));
    }
}

/// The lines after the header of the CSV text of `items` are the entries'
/// lines.
pub proof fn lemma_data_lines(items: Seq<ItemView>)
    requires
        forall|i: int| 0 <= i < items.len() ==> csv_safe(#[trigger] items[i].description),
    ensures
        csv_data_lines(csv_text(items)) == items.map_values(|it: ItemView| csv_row(it)),
{
    let h = csv_header();
    let prefix = h + seq!['\n'];
    let s = csv_text(items);
    assert(s == prefix + csv_rows(items));
    lemma_lines_of_rows(prefix, items);
    let e = h.len() as int;
    assert(s[e] == '\n');
    assert forall|k: int| 0 <= k < e implies s[k] != '\n' by {
        assert(s[k] == h[k]);
    }
    lemma_next_index_at(s, '\n', 0, e);
    assert(lines_from(s, 0) == seq![strip_cr(s.subrange(0, e))] + lines_from(s, e + 1));
    assert((seq![strip_cr(s.subrange(0, e))] + lines_from(s, e + 1)).skip(1) =~= lines_from(
        s,
        e + 1,
    ));
}

/// Every id of `items` lies below [`id_after`], and so does it below any
/// bound that lies above every id.
pub proof fn lemma_id_after(items: Seq<ItemView>, bound: nat)
    ensures
        forall|i: int| 0 <= i < items.len() ==> (#[trigger] items[i]).id < id_after(items),
        (forall|i: int| 0 <= i < items.len() ==> (#[trigger] items[i]).id < bound) ==> id_after(
            items,
        ) <= bound,
    decreases items.len(),
{
    if items.len() > 0 {
        let init = items.drop_last();
        lemma_id_after(init, bound);
        assert forall|i: int| 0 <= i < items.len() implies (#[trigger] items[i]).id < id_after(
            items,
        ) by {
            if i < items.len() - 1 {
                assert(items[i] == init[i]);
            }
        }
        if forall|i: int| 0 <= i < items.len() ==> (#[trigger] items[i]).id < bound {
            assert forall|i: int| 0 <= i < init.len() implies (#[trigger] init[i]).id < bound by {
                assert(init[i] == items[i]);
            }
            assert(items[items.len() - 1].id < bound);
        }
    }
}

/// Writing one more entry extends the text by that entry's line.
pub proof fn lemma_csv_rows_push(items: Seq<ItemView>, it: ItemView)
    ensures
        csv_rows(items.push(it)) == csv_rows(items) + csv_row(it) + seq!['\n'],
    decreases items.len(),
{
    if items.len() == 0 {
        assert(items.push(it).skip(1) =~= seq![]);
        assert(csv_rows(items.push(it).skip(1)) =~= seq![]);
        assert(csv_rows(items) =~= seq![]);
        assert(csv_rows(items.push(it)) =~= csv_rows(items) + csv_row(it) + seq!['\n']);
    } else {
        lemma_csv_rows_push(items.skip(1), it);
        assert(items.push(it).skip(1) =~= items.skip(1).push(it));
        assert(csv_rows(items.push(it)) =~= csv_rows(items) + csv_row(it) + seq!['\n']);
    }
}

/// Appends the decimal numeral of `n`.
fn push_decimal(out: &mut String, n: u32)
    ensures
        final(out)@ == old(out)@ + decimal(n as nat),
    decreases n,
{
    if n >= 10 {
        push_decimal(out, n / 10);
    }
    let c = digit_char(n % 10);
    push_char(out, c);
    assert(final(out)@ =~= old(out)@ + decimal(n as nat));
}

impl TodoItem {
    /// The CSV header line, without its line break.
    pub fn header_of_csv() -> (r: &'static str)
        ensures
            r@ == csv_header(),
    {
        proof {
            reveal_strlit("Id,Description,Done");
        }
        "Id,Description,Done"
    }

    /// The CSV line of this entry, without its line break.
    pub fn elem_in_csv(&mut self) -> (r: String)
        ensures
            *final(self) == *old(self),
            r@ == csv_row(old(self)@),
    {
        let mut out = String::new();
        self.write_csv(&mut out);
        assert(out@ =~= csv_row(self@));
        out
    }

    /// Appends the CSV line of this entry, without its line break.
    fn write_csv(&self, out: &mut String)
        ensures
            final(out)@ == old(out)@ + csv_row(self@),
    {
        push_decimal(out, self.id());
        push_char(out, ',');
        out.append(self.description());
        push_char(out, ',');
        if self.is_done() {
            proof {
                reveal_strlit("true");
            }
            out.append("true");
        } else {
            proof {
                reveal_strlit("false");
            }
            out.append("false");
        }
        assert(final(out)@ =~= old(out)@ + csv_row(self@));
    }
}

impl TodoList {
    /// The CSV text of the collection: the header line, then one line per
    /// entry, in order, each line ended by a line break.
    pub fn to_csv(&self) -> (r: String)
        ensures
            r@ == csv_text(self@.items),
    {
        let items = self.items();
        let mut out = String::new();
        out.append(TodoItem::header_of_csv());
        push_char(&mut out, '\n');
        let mut i: usize = 0;
        while i < items.len()
            invariant
                i <= items.len(),
                items@.map_values(|t: TodoItem| t@) == self@.items,
                out@ == csv_header() + seq!['\n'] + csv_rows(self@.items.take(i as int)),
            decreases items.len() - i,
        {
            items[i].write_csv(&mut out);
            push_char(&mut out, '\n');
            proof {
                let v = self@.items;
                assert(v.take(i + 1) =~= v.take(i as int).push(v[i as int]));
                lemma_csv_rows_push(v.take(i as int), v[i as int]);
            }
            i = i + 1;
        }
        assert(self@.items.take(i as int) =~= self@.items);
        out
    }
}

} // verus!
