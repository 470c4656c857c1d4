//! The frame decoder: one block of text becomes one event.
//!
//! A block is split into lines; each line is split on the first `": "` into a
//! field name and a field value.  An `id` line sets the event's id to the
//! value, untrimmed; a `data` line sets the event's data to the value with
//! surrounding whitespace trimmed (the last such line wins); every other line
//! is ignored.  A block with no recognised line still yields one event with
//! default fields.  Bytes that are not valid text yield no event at all.

use vstd::prelude::*;
use vstd::utf8::{decode_utf8, valid_utf8};

verus! {

/// One decoded unit of the feed: a payload and an optional resume identifier.
#[derive(Debug, PartialEq, Eq)]
pub struct Event {
    pub id: Option<String>,
    pub data: String,
}

/// The mathematical value of an [`Event`]: its two fields as character sequences.
#[verifier::ext_equal]
pub struct EventView {
    pub id: Option<Seq<char>>,
    pub data: Seq<char>,
}

/// The character sequence held by an optional string.
pub open spec fn opt_chars(o: Option<String>) -> Option<Seq<char>> {
    match o {
        Some(s) => Some(s@),
        None => None,
    }
}

impl View for Event {
    type V = EventView;

    open spec fn view(&self) -> EventView {
        EventView { id: opt_chars(self.id), data: self.data@ }
    }
}

/// The event a block decodes to before any line has been applied.
pub open spec fn empty_event() -> EventView {
    EventView { id: None, data: Seq::empty() }
}

/// Whether `c` is whitespace, by its scalar value (the set that trimming removes).
pub open spec fn is_ws(c: char) -> bool {
    let u = c as u32;
    ||| u == 0x20
    ||| (0x09 <= u && u <= 0x0d)
    ||| u == 0x85
    ||| u == 0xa0
    ||| u == 0x1680
    ||| (0x2000 <= u && u <= 0x200a)
    ||| u == 0x2028
    ||| u == 0x2029
    ||| u == 0x202f
    ||| u == 0x205f
    ||| u == 0x3000
}

/// Whether `c` is whitespace in the sense of [`is_ws`].
pub fn char_is_ws(c: char) -> (b: bool)
    ensures
        b == is_ws(c),
{
    let u = c as u32;
    u == 0x20 || (0x09 <= u && u <= 0x0d) || u == 0x85 || u == 0xa0 || u == 0x1680
        || (0x2000 <= u && u <= 0x200a) || u == 0x2028 || u == 0x2029 || u == 0x202f
        || u == 0x205f || u == 0x3000
}

/// The field name of an `id` line.
pub open spec fn id_key() -> Seq<char> {
    seq!['i', 'd']
}

/// The field name of a `data` line.
pub open spec fn data_key() -> Seq<char> {
    seq!['d', 'a', 't', 'a']
}

/// Whether the separator `": "` stands at position `i` of `line`.
pub open spec fn sep_at(line: Seq<char>, i: int) -> bool {
    &&& 0 <= i
    &&& i + 1 < line.len()
    &&& line[i] == ':'
    &&& line[i + 1] == ' '
}

/// The position of the first `": "` in `line`, or `line.len()` if there is none.
pub open spec fn sep_index(line: Seq<char>) -> int
    decreases line.len(),
{
    if line.len() < 2 {
        line.len() as int
    } else if line[0] == ':' && line[1] == ' ' {
        0
    } else {
        1 + sep_index(line.skip(1))
    }
}

proof fn lemma_sep_index(line: Seq<char>)
    ensures
        0 <= sep_index(line) <= line.len(),
        sep_index(line) < line.len() ==> sep_at(line, sep_index(line)),
        forall|k: int| 0 <= k < sep_index(line) ==> !sep_at(line, k),
    decreases line.len(),
{
    if line.len() < 2 {
        assert forall|k: int| 0 <= k < sep_index(line) implies !sep_at(line, k) by {}
    } else if line[0] == ':' && line[1] == ' ' {
    } else {
        let tail = line.skip(1);
        lemma_sep_index(tail);
        assert forall|k: int| 0 <= k < sep_index(line) implies !sep_at(line, k) by {
            if k >= 1 {
                assert(tail[k - 1] == line[k]);
                if k < line.len() - 1 {
                    assert(tail[k] == line[k + 1]);
                }
                assert(!sep_at(tail, k - 1));
            }
        }
        if sep_index(line) < line.len() {
            let i = sep_index(tail);
            assert(sep_at(tail, i));
            assert(tail[i] == line[i + 1]);
            assert(tail[i + 1] == line[i + 2]);
        }
    }
}

/// `sep_index` is the position the requirements describe, and nothing else.
proof fn lemma_sep_index_is(line: Seq<char>, j: int)
    requires
        0 <= j <= line.len(),
        forall|k: int| 0 <= k < j ==> !sep_at(line, k),
        j < line.len() ==> sep_at(line, j),
    ensures
        sep_index(line) == j,
{
    lemma_sep_index(line);
    if sep_index(line) < j {
        assert(sep_at(line, sep_index(line)));
    } else if j < sep_index(line) {
        assert(!sep_at(line, j));
    }
}

/// The position of the first `'\n'` in `s`, or `s.len()` if there is none.
pub open spec fn nl_index(s: Seq<char>) -> int
    decreases s.len(),
{
    if s.len() == 0 {
        0
    } else if s[0] == '\n' {
        0
    } else {
        1 + nl_index(s.skip(1))
    }
}

proof fn lemma_nl_index(s: Seq<char>)
    ensures
        0 <= nl_index(s) <= s.len(),
        nl_index(s) < s.len() ==> s[nl_index(s)] == '\n',
        forall|k: int| 0 <= k < nl_index(s) ==> s[k] != '\n',
    decreases s.len(),
{
    if s.len() == 0 {
    } else if s[0] == '\n' {
    } else {
        let tail = s.skip(1);
        lemma_nl_index(tail);
        assert forall|k: int| 0 <= k < nl_index(s) implies s[k] != '\n' by {
            if k >= 1 {
                assert(tail[k - 1] == s[k]);
            }
        }
        if nl_index(s) < s.len() {
            assert(tail[nl_index(tail)] == s[nl_index(s)]);
        }
    }
}

/// `nl_index` is the position the requirements describe, and nothing else.
proof fn lemma_nl_index_is(s: Seq<char>, j: int)
    requires
        0 <= j <= s.len(),
        forall|k: int| 0 <= k < j ==> s[k] != '\n',
        j < s.len() ==> s[j] == '\n',
    ensures
        nl_index(s) == j,
{
    lemma_nl_index(s);
    if nl_index(s) < j {
        assert(s[nl_index(s)] == '\n');
    } else if j < nl_index(s) {
        assert(s[j] != '\n');
    }
}

/// `s` with leading whitespace removed.
pub open spec fn trim_start(s: Seq<char>) -> Seq<char>
    decreases s.len(),
{
    if s.len() > 0 && is_ws(s[0]) {
        trim_start(s.skip(1))
    } else {
        s
    }
}

/// `s` with trailing whitespace removed.
pub open spec fn trim_end(s: Seq<char>) -> Seq<char>
    decreases s.len(),
{
    if s.len() > 0 && is_ws(s[s.len() - 1]) {
        trim_end(s.drop_last())
    } else {
        s
    }
}

/// `s` with surrounding whitespace removed.
pub open spec fn trimmed(s: Seq<char>) -> Seq<char> {
    trim_end(trim_start(s))
}

/// Removing leading whitespace is taking the suffix from the first non-whitespace position.
proof fn lemma_trim_start_skip(s: Seq<char>, a: int)
    requires
        0 <= a <= s.len(),
        forall|k: int| 0 <= k < a ==> is_ws(s[k]),
        a < s.len() ==> !is_ws(s[a]),
    ensures
        trim_start(s) == s.skip(a),
    decreases a,
{
    if a == 0 {
        assert(s.skip(0) =~= s);
    } else {
        assert(is_ws(s[0]));
        let tail = s.skip(1);
        assert forall|k: int| 0 <= k < a - 1 implies is_ws(tail[k]) by {
            assert(tail[k] == s[k + 1]);
        }
        if a - 1 < tail.len() {
            assert(tail[a - 1] == s[a]);
        }
        lemma_trim_start_skip(tail, a - 1);
        assert(tail.skip(a - 1) =~= s.skip(a));
    }
}

/// Removing trailing whitespace is taking the prefix up to the last non-whitespace position.
proof fn lemma_trim_end_take(s: Seq<char>, b: int)
    requires
        0 <= b <= s.len(),
        forall|k: int| b <= k < s.len() ==> is_ws(s[k]),
        b > 0 ==> !is_ws(s[b - 1]),
    ensures
        trim_end(s) == s.take(b),
    decreases s.len(),
{
    if b == s.len() {
        assert(s.take(b) =~= s);
        if s.len() > 0 {
            assert(!is_ws(s[s.len() - 1]));
        }
    } else {
        assert(is_ws(s[s.len() - 1]));
        let front = s.drop_last();
        assert(front =~= s.take(s.len() - 1));
        assert forall|k: int| b <= k < front.len() implies is_ws(front[k]) by {
            assert(front[k] == s[k]);
        }
        if b > 0 {
            assert(front[b - 1] == s[b - 1]);
        }
        lemma_trim_end_take(front, b);
        assert(front.take(b) =~= s.take(b));
    }
}

/// A line that ended at a newline loses one trailing carriage return, if any.
pub open spec fn strip_cr(line: Seq<char>) -> Seq<char> {
    if line.len() > 0 && line[line.len() - 1] == '\r' {
        line.drop_last()
    } else {
        line
    }
}

/// The event after one line of a block has been applied to `ev`:
/// an `id` line replaces the id with the untrimmed value (no value: no id),
/// a `data` line replaces the data with the trimmed value (no value: empty data),
/// any other line changes nothing.
pub open spec fn line_applied(ev: EventView, line: Seq<char>) -> EventView {
    let i = sep_index(line);
    if i < line.len() {
        let name = line.take(i);
        let value = line.skip(i + 2);
        if name == id_key() {
            EventView { id: Some(value), data: ev.data }
        } else if name == data_key() {
            EventView { id: ev.id, data: trimmed(value) }
        } else {
            ev
        }
    } else {
        if line == id_key() {
            EventView { id: None, data: ev.data }
        } else if line == data_key() {
            EventView { id: ev.id, data: Seq::empty() }
        } else {
            ev
        }
    }
}

/// The event after every line of `s` has been applied to `ev`, in order.
/// Lines end at `'\n'` (losing a trailing `'\r'`); a last line without a
/// newline still counts; a trailing newline does not open a further line.
pub open spec fn decoded_from(ev: EventView, s: Seq<char>) -> EventView
    decreases s.len(),
{
    if s.len() == 0 {
        ev
    } else {
        let i = nl_index(s);
        if 0 <= i < s.len() {
            decoded_from(line_applied(ev, strip_cr(s.take(i))), s.skip(i + 1))
        } else {
            line_applied(ev, s)
        }
    }
}

/// The event that the block `s` decodes to.
pub open spec fn decoded(s: Seq<char>) -> EventView {
    decoded_from(empty_event(), s)
}

/// `s` with surrounding whitespace removed, as a fresh string.
pub fn trim_str(s: &str) -> (r: String)
    ensures
        r@ == trimmed(s@),
{
    let n = s.unicode_len();
    let mut a: usize = 0;
    while a < n && char_is_ws(s.get_char(a))
        invariant
            n == s@.len(),
            a <= n,
            forall|k: int| 0 <= k < a ==> is_ws(s@[k]),
        decreases n - a,
    {
        a = a + 1;
    }
    proof {
        lemma_trim_start_skip(s@, a as int);
    }
    if a == n {
        proof {
            assert(trim_start(s@) =~= Seq::<char>::empty());
        }
        String::new()
    } else {
        let mut b: usize = n;
        while b > a && char_is_ws(s.get_char(b - 1))
            invariant
                n == s@.len(),
                a <= b <= n,
                a < n,
                !is_ws(s@[a as int]),
                forall|k: int| b <= k < n ==> is_ws(s@[k]),
            decreases b,
        {
            b = b - 1;
        }
        proof {
            let tail = s@.skip(a as int);
            if b == a {
                assert(is_ws(s@[a as int]));
            }
            assert forall|k: int| b - a <= k < tail.len() implies is_ws(tail[k]) by {
                assert(tail[k] == s@[k + a]);
            }
            assert(tail[b - a - 1] == s@[b as int - 1]);
            lemma_trim_end_take(tail, b as int - a as int);
            assert(tail.take(b as int - a as int) =~= s@.subrange(a as int, b as int));
        }
        String::from_str(s.substring_char(a, b))
    }
}

/// The position of the first `": "` in `line`, if any.
fn find_sep_str(line: &str) -> (r: Option<usize>)
    ensures
        r matches Some(j) ==> sep_index(line@) == j && j < line@.len(),
        r is None ==> sep_index(line@) == line@.len(),
{
    let n = line.unicode_len();
    if n < 2 {
        proof {
            assert forall|k: int| 0 <= k < line@.len() implies !sep_at(line@, k) by {}
            lemma_sep_index_is(line@, line@.len() as int);
        }
        return None;
    }
    let mut j: usize = 0;
    let mut found: Option<usize> = None;
    while j < n - 1
        invariant_except_break
            2 <= n == line@.len(),
            j <= n - 1,
            found is None,
            forall|k: int| 0 <= k < j ==> !sep_at(line@, k),
        ensures
            n == line@.len(),
            found matches Some(jj) ==> sep_at(line@, jj as int) && (forall|k: int|
                0 <= k < jj ==> !sep_at(line@, k)),
            found is None ==> j >= n - 1 && (forall|k: int| 0 <= k < j ==> !sep_at(line@, k)),
        decreases n - j,
    {
        if line.get_char(j) == ':' && line.get_char(j + 1) == ' ' {
            found = Some(j);
            break;
        }
        j = j + 1;
    }
    proof {
        match found {
            Some(jj) => lemma_sep_index_is(line@, jj as int),
            None => {
                assert forall|k: int| 0 <= k < line@.len() implies !sep_at(line@, k) by {
                    if k >= j {
                        assert(k + 1 >= line@.len());
                    }
                }
                lemma_sep_index_is(line@, line@.len() as int);
            },
        }
    }
    found
}

impl Event {
    /// The event a block starts from: no id, empty data.
    pub fn empty() -> (e: Event)
        ensures
            e@ == empty_event(),
    {
        let e = Event { id: None, data: String::new() };
        proof {
            assert(e@ =~= empty_event());
        }
        e
    }

    /// Apply one line of a block to the event under construction.
    fn apply_line(&mut self, line: &str)
        ensures
            final(self)@ == line_applied(old(self)@, line@),
    {
        let n = line.unicode_len();
        match find_sep_str(line) {
            Some(i) => {
                proof {
                    lemma_sep_index(line@);
                }
                let is_id = i == 2 && line.get_char(0) == 'i' && line.get_char(1) == 'd';
                let is_data = i == 4 && line.get_char(0) == 'd' && line.get_char(1) == 'a'
                    && line.get_char(2) == 't' && line.get_char(3) == 'a';
                proof {
                    let name = line@.take(i as int);
                    assert(name.len() == i);
                    if is_id {
                        assert(name =~= id_key());
                    } else {
                        assert(name != id_key()) by {
                            if name == id_key() {
                                assert(name[0] == line@[0] && name[1] == line@[1]);
                                assert(name[0] == id_key()[0] && name[1] == id_key()[1]);
                            }
                        }
                    }
                    if is_data {
                        assert(name =~= data_key());
                    } else {
                        assert(name != data_key()) by {
                            if name == data_key() {
                                assert(name[0] == line@[0] && name[1] == line@[1] && name[2]
                                    == line@[2] && name[3] == line@[3]);
                                assert(name[0] == data_key()[0] && name[1] == data_key()[1]
                                    && name[2] == data_key()[2] && name[3] == data_key()[3]);
                            }
                        }
                    }
                }
                if is_id {
                    let value = line.substring_char(i + 2, n);
                    proof {
                        assert(value@ =~= line@.skip(i as int + 2));
                    }
                    self.id = Some(String::from_str(value));
                    proof {
                        assert(self@ =~= line_applied(old(self)@, line@));
                    }
                } else if is_data {
                    let value = line.substring_char(i + 2, n);
                    proof {
                        assert(value@ =~= line@.skip(i as int + 2));
                    }
                    self.data = trim_str(value);
                    proof {
                        assert(self@ =~= line_applied(old(self)@, line@));
                    }
                }
            },
            None => {
                let is_id = n == 2 && line.get_char(0) == 'i' && line.get_char(1) == 'd';
                let is_data = n == 4 && line.get_char(0) == 'd' && line.get_char(1) == 'a'
                    && line.get_char(2) == 't' && line.get_char(3) == 'a';
                proof {
                    if is_id {
                        assert(line@ =~= id_key());
                    } else {
                        assert(line@ != id_key()) by {
                            if line@ == id_key() {
                                assert(line@[0] == id_key()[0] && line@[1] == id_key()[1]);
                            }
                        }
                    }
                    if is_data {
                        assert(line@ =~= data_key());
                    } else {
                        assert(line@ != data_key()) by {
                            if line@ == data_key() {
                                assert(line@[0] == data_key()[0] && line@[1] == data_key()[1]
                                    && line@[2] == data_key()[2] && line@[3] == data_key()[3]);
                            }
                        }
                    }
                }
                if is_id {
                    self.id = None;
                } else if is_data {
                    self.data = String::new();
                }
                proof {
                    assert(self@ =~= line_applied(old(self)@, line@));
                }
            },
        }
    }
}

/// Decode one block of text into one event, line by line.
pub fn decode_block(block: &str) -> (e: Event)
    ensures
        e@ == decoded(block@),
{
    let mut e = Event::empty();
    let n = block.unicode_len();
    proof {
        assert(block@.subrange(0, n as int) =~= block@);
    }
    let mut pos: usize = 0;
    while pos < n
        invariant_except_break
            n == block@.len(),
            pos <= n,
            decoded_from(e@, block@.subrange(pos as int, n as int)) == decoded(block@),
        ensures
            e@ == decoded(block@),
        decreases n - pos,
    {
        let ghost s = block@.subrange(pos as int, n as int);
        let mut j: usize = pos;
        while j < n && block.get_char(j) != '\n'
            invariant
                n == block@.len(),
                pos <= j <= n,
                forall|k: int| pos <= k < j ==> block@[k] != '\n',
            decreases n - j,
        {
            j = j + 1;
        }
        proof {
            assert forall|k: int| 0 <= k < j - pos implies s[k] != '\n' by {
                assert(s[k] == block@[k + pos]);
            }
            if j < n {
                assert(s[j as int - pos as int] == block@[j as int]);
            }
            lemma_nl_index_is(s, j as int - pos as int);
        }
        if j == n {
            let line = block.substring_char(pos, n);
            proof {
                assert(line@ =~= s);
            }
            e.apply_line(line);
            break;
        } else {
            let line_end = if j > pos && block.get_char(j - 1) == '\r' {
                j - 1
            } else {
                j
            };
            let line = block.substring_char(pos, line_end);
            proof {
                let m = j as int - pos as int;
                let pre = s.take(m);
                assert(pre =~= block@.subrange(pos as int, j as int));
                if m > 0 {
                    assert(pre[m - 1] == block@[j as int - 1]);
                }
                if j > pos && block@[j as int - 1] == '\r' {
                    assert(pre.drop_last() =~= block@.subrange(pos as int, j as int - 1));
                }
                assert(line@ == strip_cr(pre));
                assert(s.skip(m + 1) =~= block@.subrange(j as int + 1, n as int));
            }
            e.apply_line(line);
            pos = j + 1;
        }
    }
    e
}

/// Whether `line` names the `id` field, with or without a value.
pub open spec fn names_id(line: Seq<char>) -> bool {
    if sep_index(line) < line.len() {
        line.take(sep_index(line)) == id_key()
    } else {
        line == id_key()
    }
}

/// Whether some line of the block `s` names the `id` field.
pub open spec fn has_id_line(s: Seq<char>) -> bool
    decreases s.len(),
{
    if s.len() == 0 {
        false
    } else {
        let i = nl_index(s);
        if 0 <= i < s.len() {
            names_id(strip_cr(s.take(i))) || has_id_line(s.skip(i + 1))
        } else {
            names_id(s)
        }
    }
}

proof fn lemma_decoded_from_keeps_id(ev: EventView, s: Seq<char>)
    requires
        !has_id_line(s),
    ensures
        decoded_from(ev, s).id == ev.id,
    decreases s.len(),
{
    if s.len() > 0 {
        let i = nl_index(s);
        lemma_nl_index(s);
        if i < s.len() {
            lemma_decoded_from_keeps_id(line_applied(ev, strip_cr(s.take(i))), s.skip(i + 1));
        }
    }
}

/// A block with no `id` line decodes to an event without an id, so processing
/// it can never change a session's last seen id.
pub proof fn lemma_no_id_line(s: Seq<char>)
    requires
        !has_id_line(s),
    ensures
        decoded(s).id is None,
{
    lemma_decoded_from_keeps_id(empty_event(), s);
}

/// The block made of one `id` line carrying `x` and one `data` line carrying `y`.
pub open spec fn id_data_block(x: Seq<char>, y: Seq<char>) -> Seq<char> {
    seq!['i', 'd', ':', ' '] + x + seq!['\n', 'd', 'a', 't', 'a', ':', ' '] + y
}

/// A block that is an `id: X` line followed by a `data: Y` line decodes to the
/// event with id `X`, untrimmed, and data `Y`, trimmed — for any `X` and `Y`
/// that fit on one line (`X` not ending in a carriage return, which the line
/// ending would swallow).
pub proof fn lemma_id_then_data(x: Seq<char>, y: Seq<char>)
    requires
        forall|k: int| 0 <= k < x.len() ==> x[k] != '\n',
        forall|k: int| 0 <= k < y.len() ==> y[k] != '\n',
        x.len() > 0 ==> x[x.len() - 1] != '\r',
    ensures
        decoded(id_data_block(x, y)) == (EventView { id: Some(x), data: trimmed(y) }),
{
    let a = seq!['i', 'd', ':', ' '];
    let b = seq!['\n', 'd', 'a', 't', 'a', ':', ' '];
    let s = id_data_block(x, y);
    let n1 = 4 + x.len() as int;
    assert(s.len() == n1 + 7 + y.len());
    assert forall|k: int| 0 <= k < n1 implies s[k] != '\n' by {
        if k < 4 {
            assert(s[k] == a[k]);
        } else {
            assert(s[k] == x[k - 4]);
        }
    }
    assert(s[n1] == b[0]);
    lemma_nl_index_is(s, n1);

    let line1 = s.take(n1);
    assert(line1 =~= a + x);
    if x.len() > 0 {
        assert(line1[n1 - 1] == x[x.len() - 1]);
    } else {
        assert(line1[n1 - 1] == a[3]);
    }
    assert(strip_cr(line1) == line1);
    assert(sep_at(line1, 2));
    assert forall|k: int| 0 <= k < 2 implies !sep_at(line1, k) by {
        assert(line1[0] == a[0] && line1[1] == a[1]);
    }
    lemma_sep_index_is(line1, 2);
    assert(line1.take(2) =~= id_key());
    assert(line1.skip(4) =~= x);
    let ev1 = line_applied(empty_event(), line1);
    assert(ev1 =~= (EventView { id: Some(x), data: Seq::empty() }));

    let rest = s.skip(n1 + 1);
    let c = seq!['d', 'a', 't', 'a', ':', ' '];
    assert(rest =~= c + y);
    assert forall|k: int| 0 <= k < rest.len() implies rest[k] != '\n' by {
        if k < 6 {
            assert(rest[k] == c[k]);
        } else {
            assert(rest[k] == y[k - 6]);
        }
    }
    lemma_nl_index_is(rest, rest.len() as int);
    assert(sep_at(rest, 4));
    assert forall|k: int| 0 <= k < 4 implies !sep_at(rest, k) by {
        assert(rest[0] == c[0] && rest[1] == c[1] && rest[2] == c[2] && rest[3] == c[3]);
    }
    lemma_sep_index_is(rest, 4);
    let name2 = rest.take(4);
    assert(name2 =~= data_key());
    assert(name2 != id_key()) by {
        assert(name2.len() == 4 && id_key().len() == 2);
    }
    assert(rest.skip(6) =~= y);
    let ev2 = line_applied(ev1, rest);
    assert(ev2 =~= (EventView { id: Some(x), data: trimmed(y) }));

    assert(decoded(s) == decoded_from(line_applied(empty_event(), strip_cr(line1)), rest));
    assert(decoded_from(ev1, rest) == ev2);
}

/// Relies on `core::str::from_utf8`: it returns `Ok` exactly on bytes that are
/// a valid UTF-8 encoding, and then the decoded text, as `vstd::utf8` states it.
#[verifier::external_body]
fn utf8_text(bytes: &[u8]) -> (r: Option<&str>)
    ensures
        r is Some <==> valid_utf8(bytes@),
        r matches Some(s) ==> s@ == decode_utf8(bytes@),
{
    core::str::from_utf8(bytes).ok()
}

/// Decode one transport chunk: its event, or nothing when the bytes are not
/// valid text (such a chunk is silently skipped, never an error).
pub fn decode_chunk(bytes: &[u8]) -> (r: Option<Event>)
    ensures
        r is Some <==> valid_utf8(bytes@),
        r matches Some(ev) ==> ev@ == decoded(decode_utf8(bytes@)),
{
    match utf8_text(bytes) {
        Some(text) => Some(decode_block(text)),
        None => None,
    }
}

} // verus!
