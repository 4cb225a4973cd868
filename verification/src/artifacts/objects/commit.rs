//! Commits: a tree, its parents, an author and a message.
//!
//! Stored as lines: `tree <id>`, one `parent <id>` per parent,
//! `author <name> <<email>> <time> <zone>`, `committer ...`, an empty line,
//! then the message.
use crate::artifacts::objects::object::{
    frame, framed, object_id_of, sha1_digest, AuthorParseError, ObjectError, Unpackable,
};
use crate::artifacts::objects::object_id::{hex_encode, is_object_id_text, ObjectId};
use crate::artifacts::objects::object_type::ObjectType;
use crate::text::{
    is_hex_char, chars_of, find_char, find_char_exec, is_digit, is_prefix, is_white, join_lines,
    join_with_newlines, leading_white, lemma_find_char_at,
    lemma_concat_lacks, lemma_join_lines_of, lemma_lines_from_line, lemma_lines_from_shift,
    lemma_lines_of_joined, lemma_parse_signed_decimal, lemma_signed_decimal_chars,
    lemma_trim_padded, lines_of, plain_line, plain_lines, parse_i64, parse_signed, push_signed_decimal, push_str, signed_decimal, split_lines, string_from_chars,
    string_from_range, string_from_utf8, trim_bounds, trim_seq, utf8_bytes,
};
use vstd::prelude::*;

verus! {

/// Whether `chrono` can represent the time `ts` (seconds since the epoch):
/// from the first second of the year -262143 to the last of the year 262142
/// (`DateTime::<Utc>::MIN_UTC` to `MAX_UTC`).
pub open spec fn chrono_timestamp_valid(ts: i64) -> bool {
    -8334601228800 <= ts <= 8210266876799
}

/// The offset in seconds east of UTC that `chrono` reads from a `%z` zone.
pub uninterp spec fn chrono_zone_offset(zone: Seq<char>) -> Option<i32>;

/// The readable form of a time and zone offset, as `chrono` writes it.
pub uninterp spec fn chrono_readable(ts: i64, offset: i32) -> Option<Seq<char>>;

/// Whether `chrono::DateTime::from_timestamp(ts, 0)` gives a time: it does
/// when the day `ts` falls on lies between `NaiveDate::MIN` and
/// `NaiveDate::MAX`.
#[verifier::external_body]
fn timestamp_valid(ts: i64) -> (r: bool)
    ensures
        r == chrono_timestamp_valid(ts),
{
    chrono::DateTime::from_timestamp(ts, 0).is_some()
}

/// The value of a decimal digit.
pub open spec fn digit_value(c: char) -> int {
    c as int - 48
}

/// A zone written `+hhmm` or `-hhmm` with hours below 24 and minutes below
/// 60.
pub open spec fn zone_form(z: Seq<char>) -> bool {
    &&& z.len() == 5
    &&& (z[0] == '+' || z[0] == '-')
    &&& forall|i: int| 1 <= i < 5 ==> is_digit(#[trigger] z[i])
    &&& digit_value(z[1]) * 10 + digit_value(z[2]) < 24
    &&& digit_value(z[3]) < 6
}

/// The offset, in seconds east of UTC, of a zone of that form.
pub open spec fn zone_value(z: Seq<char>) -> int {
    let secs = (digit_value(z[1]) * 10 + digit_value(z[2])) * 3600 + (digit_value(z[3]) * 10
        + digit_value(z[4])) * 60;
    if z[0] == '-' {
        -secs
    } else {
        secs
    }
}

/// The offset read from a zone: its value when written `+hhmm` or `-hhmm`,
/// else what `chrono` reads.
#[verifier::opaque]
pub open spec fn read_zone(z: Seq<char>) -> Option<i32> {
    if zone_form(z) {
        Some(zone_value(z) as i32)
    } else {
        chrono_zone_offset(z)
    }
}

/// The offset of a zone written as `%z` (such as `+0100`), as
/// `chrono::DateTime::parse_from_str` reads it; none when it is not one. The
/// offset `chrono` gives is less than a day either way. For a sign, two
/// digits of hours below 24 and two of minutes below 60, `chrono`'s `%z`
/// scanner reads the sign times hours and minutes in seconds, which
/// `FixedOffset::east_opt` accepts.
#[verifier::external_body]
fn zone_offset(zone: &str) -> (r: Option<i32>)
    ensures
        r == chrono_zone_offset(zone@),
        r matches Some(o) ==> -86400 < o < 86400,
        zone_form(zone@) ==> r == Some(zone_value(zone@) as i32),
{
    let text = format!("1970-01-02 00:00:00 {}", zone);
    chrono::DateTime::parse_from_str(&text, "%Y-%m-%d %H:%M:%S %z").ok().map(
        |d| d.offset().local_minus_utc(),
    )
}

/// The time `ts` in the zone `offset` written as `%a %b %-d %H:%M:%S %Y %z`
/// by `chrono`; none when `chrono` cannot represent it.
#[verifier::external_body]
fn readable_time(ts: i64, offset: i32) -> (r: Option<String>)
    ensures
        r matches Some(s) ==> chrono_readable(ts, offset) == Some(s@),
        r is None ==> chrono_readable(ts, offset) is None,
{
    let zone = chrono::FixedOffset::east_opt(offset)?;
    let time = chrono::DateTime::from_timestamp(ts, 0)?;
    Some(time.with_timezone(&zone).format("%a %b %-d %H:%M:%S %Y %z").to_string())
}

/// Two digits of a number below 100.
pub open spec fn two_digits(n: int) -> Seq<char> {
    seq![(48 + n / 10) as char, (48 + n % 10) as char]
}

/// A zone offset written as `%z`: a sign, two digits of hours and two of
/// minutes.
pub open spec fn zone_text(offset: int) -> Seq<char> {
    let a = if offset < 0 {
        -offset
    } else {
        offset
    };
    seq![
        if offset < 0 {
            '-'
        } else {
            '+'
        },
    ] + two_digits(a / 3600) + two_digits((a / 60) % 60)
}

/// The view of an author: name, email, time (seconds since the epoch) and
/// zone offset (seconds east of UTC).
pub type AuthorView = (Seq<char>, Seq<char>, int, int);

/// The position of the last `c` in `s`, or -1.
pub open spec fn rfind_char(s: Seq<char>, c: char) -> int
    decreases s.len(),
{
    if s.len() == 0 {
        -1
    } else if s.last() == c {
        s.len() - 1
    } else {
        rfind_char(s.drop_last(), c)
    }
}

pub proof fn lemma_rfind_char(s: Seq<char>, c: char)
    ensures
        -1 <= rfind_char(s, c) < s.len(),
        rfind_char(s, c) >= 0 ==> s[rfind_char(s, c)] == c,
    decreases s.len(),
{
    if s.len() > 0 && s.last() != c {
        lemma_rfind_char(s.drop_last(), c);
    }
}

/// Reads an author line `<name> <<email>> <time> <zone>`: the zone follows
/// the last space, the time the space before it. The time is kept as the
/// seconds given, and the zone's offset beside it.
pub open spec fn parse_author(v: Seq<char>) -> Result<AuthorView, AuthorParseError> {
    let p1 = rfind_char(v, ' ');
    let p2 = if p1 >= 0 {
        rfind_char(v.subrange(0, p1), ' ')
    } else {
        -1
    };
    if p1 < 0 || p2 < 0 {
        Err(AuthorParseError::InvalidFormat)
    } else {
        let zone = v.subrange(p1 + 1, v.len() as int);
        let ne = v.subrange(0, p2);
        match parse_signed(v.subrange(p2 + 1, p1)) {
            None => Err(AuthorParseError::InvalidTimestamp),
            Some(ts) => if ts < i64::MIN || ts > i64::MAX {
                Err(AuthorParseError::InvalidTimestamp)
            } else {
                let lt = find_char(ne, 0, '<');
                let gt = find_char(ne, 0, '>');
                if lt >= ne.len() {
                    Err(AuthorParseError::MissingOpen)
                } else if gt >= ne.len() {
                    Err(AuthorParseError::MissingClose)
                } else if gt < lt + 1 {
                    Err(AuthorParseError::MisplacedClose)
                } else if !chrono_timestamp_valid(ts as i64) {
                    Err(AuthorParseError::InvalidTimestamp)
                } else {
                    match read_zone(zone) {
                        None => Err(AuthorParseError::InvalidTimezone),
                        Some(off) => Ok(
                            (trim_seq(ne.subrange(0, lt)), ne.subrange(lt + 1, gt), ts, off as int),
                        ),
                    }
                }
            },
        }
    }
}

/// The `%z` text of a whole number of minutes less than a day reads back as
/// that offset.
proof fn lemma_zone_text_reads_back(offset: int)
    requires
        -86400 < offset < 86400,
        offset % 60 == 0,
    ensures
        zone_form(zone_text(offset)),
        zone_value(zone_text(offset)) == offset,
        read_zone(zone_text(offset)) == Some(offset as i32),
{
    reveal(read_zone);
    lemma_zone_text_chars(offset);
    let a = if offset < 0 {
        -offset
    } else {
        offset
    };
    let h = a / 3600;
    let m = (a / 60) % 60;
    let zt = zone_text(offset);
    assert(0 <= h < 24);
    assert(0 <= m < 60);
    assert(a % 60 == 0) by (nonlinear_arith)
        requires
            offset % 60 == 0,
            a == offset || a == -offset,
    ;
    assert(a == h * 3600 + m * 60) by (nonlinear_arith)
        requires
            0 <= a < 86400,
            a % 60 == 0,
            h == a / 3600,
            m == (a / 60) % 60,
    ;
    assert(digit_value(zt[1]) == h / 10);
    assert(digit_value(zt[2]) == h % 10);
    assert(digit_value(zt[3]) == m / 10);
    assert(digit_value(zt[4]) == m % 10);
    assert((h / 10) * 10 + h % 10 == h);
    assert((m / 10) * 10 + m % 10 == m);
}

/// The `%z` text of a zone offset less than a day is a sign and four digits.
proof fn lemma_zone_text_chars(offset: int)
    requires
        -86400 < offset < 86400,
    ensures
        !zone_text(offset).contains(' '),
        zone_text(offset).len() == 5,
        forall|i: int|
            0 <= i < zone_text(offset).len() ==> #[trigger] zone_text(offset)[i] == '+'
                || zone_text(offset)[i] == '-' || is_digit(zone_text(offset)[i]),
{
    let a = if offset < 0 {
        -offset
    } else {
        offset
    };
    let h = a / 3600;
    let m = (a / 60) % 60;
    assert(0 <= h < 24);
    assert(0 <= m < 60);
    let zt = zone_text(offset);
    assert(zt.len() == 5);
    assert forall|i: int| 0 <= i < zt.len() implies zt[i] != ' ' && (zt[i] == '+' || zt[i] == '-'
        || is_digit(zt[i])) by {
        if i == 1 {
            assert(zt[i] == (48 + h / 10) as char);
        } else if i == 2 {
            assert(zt[i] == (48 + h % 10) as char);
        } else if i == 3 {
            assert(zt[i] == (48 + m / 10) as char);
        } else if i == 4 {
            assert(zt[i] == (48 + m % 10) as char);
        }
    }
}

/// The last `c` of a text whose tail after that `c` holds none.
pub proof fn lemma_rfind_char_before(x: Seq<char>, c: char, z: Seq<char>)
    requires
        !z.contains(c),
    ensures
        rfind_char(x + seq![c] + z, c) == x.len(),
    decreases z.len(),
{
    let s = x + seq![c] + z;
    if z.len() == 0 {
        assert(s.last() == c);
    } else {
        assert(s.last() == z[z.len() - 1]);
        assert(s.drop_last() =~= x + seq![c] + z.drop_last());
        assert forall|i: int| 0 <= i < z.drop_last().len() implies z.drop_last()[i] != c by {
            assert(z.drop_last()[i] == z[i]);
        }
        lemma_rfind_char_before(x, c, z.drop_last());
    }
}

/// Whether an author reads back from its stored line: the name holds no
/// `<`, `>` or line feed and no white space at its ends, the email no `>` or
/// line feed, the time fits in `i64` and is one that `chrono` accepts, and
/// the zone is a whole number of minutes less than a day.
pub open spec fn author_reads_back(a: AuthorView) -> bool {
    &&& !a.0.contains('<')
    &&& !a.0.contains('>')
    &&& !a.0.contains('\n')
    &&& !a.1.contains('>')
    &&& !a.1.contains('\n')
    &&& (a.0.len() == 0 || (!is_white(a.0[0]) && !is_white(a.0.last())))
    &&& i64::MIN <= a.2 <= i64::MAX
    &&& chrono_timestamp_valid(a.2 as i64)
    &&& -86400 < a.3 < 86400
    &&& a.3 % 60 == 0
}

/// An author written as a line reads back as the same author.
#[verifier::spinoff_prover]
#[verifier::rlimit(50)]
pub proof fn lemma_author_read_back(a: AuthorView)
    requires
        author_reads_back(a),
    ensures
        parse_author(author_text(a)) == Ok::<AuthorView, AuthorParseError>(a),
{
    reveal_strlit(" <");
    reveal_strlit("> ");
    let name = a.0;
    let email = a.1;
    let sd = signed_decimal(a.2);
    let zt = zone_text(a.3);
    let x2 = name + seq![' ', '<'] + email + seq!['>'];
    let x1 = x2 + seq![' '] + sd;
    let v = author_text(a);
    assert(v =~= x1 + seq![' '] + zt);
    lemma_zone_text_chars(a.3);
    lemma_zone_text_reads_back(a.3);
    lemma_rfind_char_before(x1, ' ', zt);
    lemma_signed_decimal_chars(a.2);
    assert forall|i: int| 0 <= i < sd.len() implies sd[i] != ' ' by {
        assert(sd[i] == '-' || is_digit(sd[i]));
    }
    assert(v.subrange(0, x1.len() as int) =~= x1);
    lemma_rfind_char_before(x2, ' ', sd);
    assert(v.subrange(x1.len() as int + 1, v.len() as int) =~= zt);
    assert(v.subrange(x2.len() as int + 1, x1.len() as int) =~= sd);
    assert(v.subrange(0, x2.len() as int) =~= x2);
    lemma_parse_signed_decimal(a.2);
    assert forall|j: int| 0 <= j < name.len() + 1 implies x2[j] != '<' by {
        if j < name.len() {
            assert(x2[j] == name[j]);
        }
    }
    lemma_find_char_at(x2, 0, name.len() as int + 1, '<');
    assert forall|j: int| 0 <= j < x2.len() - 1 implies x2[j] != '>' by {
        if j < name.len() {
            assert(x2[j] == name[j]);
        } else if j >= name.len() + 2 {
            assert(x2[j] == email[j - name.len() - 2]);
        }
    }
    lemma_find_char_at(x2, 0, x2.len() - 1, '>');
    assert(x2.subrange(0, name.len() as int + 1) =~= name + seq![' ']);
    assert(x2.subrange(name.len() as int + 2, x2.len() - 1) =~= email);
    if name.len() == 0 {
        let sp = seq![' '];
        assert(name + sp =~= sp);
        assert(is_white(sp[0]));
        assert(sp.drop_first() =~= Seq::<char>::empty());
        assert(leading_white(sp.drop_first()) == 0);
        assert(leading_white(sp) == 1);
        assert(sp.subrange(1, 1) =~= Seq::<char>::empty());
        assert(trim_seq(sp) =~= name);
    } else {
        lemma_trim_padded(name, seq![' ']);
    }
}

/// An author or committer: name, email, and a time with its zone.
#[derive(Debug)]
pub struct Author {
    name: String,
    email: String,
    timestamp: i64,
    offset: i32,
}

impl Author {
    /// The zone offset is less than a day.
    #[verifier::type_invariant]
    spec fn inv(self) -> bool {
        -86400 < self.offset < 86400
    }

    /// The view of the author.
    pub closed spec fn view_author(self) -> AuthorView {
        (self.name@, self.email@, self.timestamp as int, self.offset as int)
    }

    /// An author with the given time, in seconds since the epoch, and zone
    /// offset, in seconds east of UTC.
    pub fn new_with_timestamp(name: String, email: String, timestamp: i64, offset: i32) -> (r:
        Self)
        requires
            -86400 < offset < 86400,
        ensures
            r.view_author() == (name@, email@, timestamp as int, offset as int),
    {
        Author { name, email, timestamp, offset }
    }

    /// `name <email>`.
    pub fn display_name(&self) -> (r: String)
        ensures
            r@ == self.view_author().0 + " <"@ + self.view_author().1 + ">"@,
    {
        let mut s = self.name.clone();
        push_str(&mut s, " <");
        push_str(&mut s, self.email.as_str());
        push_str(&mut s, ">");
        s
    }

    /// `name <email> time zone`, as stored in commits.
    pub fn display(&self) -> (r: String)
        ensures
            r@ == self.view_author().0 + " <"@ + self.view_author().1 + "> "@ + signed_decimal(
                self.view_author().2,
            ) + seq![' '] + zone_text(self.view_author().3),
    {
        proof {
            use_type_invariant(self);
        }
        let mut s = self.name.clone();
        push_str(&mut s, " <");
        push_str(&mut s, self.email.as_str());
        push_str(&mut s, "> ");
        let mut tail: Vec<char> = Vec::new();
        push_signed_decimal(&mut tail, self.timestamp);
        tail.push(' ');
        let a: i32 = if self.offset < 0 {
            0 - self.offset
        } else {
            self.offset
        };
        tail.push(
            if self.offset < 0 {
                '-'
            } else {
                '+'
            },
        );
        let h: i32 = a / 3600;
        let m: i32 = (a / 60) % 60;
        tail.push(((48 + h / 10) as u8) as char);
        tail.push(((48 + h % 10) as u8) as char);
        tail.push(((48 + m / 10) as u8) as char);
        tail.push(((48 + m % 10) as u8) as char);
        let t = string_from_chars(tail.as_slice());
        push_str(&mut s, t.as_str());
        assert(s@ =~= self.view_author().0 + " <"@ + self.view_author().1 + "> "@ + signed_decimal(
            self.view_author().2,
        ) + seq![' '] + zone_text(self.view_author().3));
        s
    }

    /// The time in readable form, such as `Mon Jan 1 12:34:56 2024 +0000`;
    /// none when it cannot be represented.
    pub fn readable_timestamp(&self) -> (r: Option<String>)
        ensures
            r matches Some(s) ==> chrono_readable(
                self.view_author().2 as i64,
                self.view_author().3 as i32,
            ) == Some(s@),
            r is None ==> chrono_readable(
                self.view_author().2 as i64,
                self.view_author().3 as i32,
            ) is None,
    {
        readable_time(self.timestamp, self.offset)
    }

    /// The time, in seconds since the epoch.
    pub fn timestamp(&self) -> (r: i64)
        ensures
            r as int == self.view_author().2,
    {
        self.timestamp
    }

    /// The zone offset, in seconds east of UTC.
    pub fn offset(&self) -> (r: i32)
        ensures
            r as int == self.view_author().3,
    {
        self.offset
    }

    /// Reads an author line (see `parse_author`).
    pub fn try_from(value: &str) -> (r: Result<Self, AuthorParseError>)
        ensures
            match parse_author(value@) {
                Ok(a) => r matches Ok(x) && x.view_author() == a,
                Err(e) => r matches Err(e2) && e2 == e,
            },
    {
        let v = chars_of(value);
        assert(v@.subrange(0, v@.len() as int) =~= v@);
        let p1 = last_space(v.as_slice(), v.len());
        if p1 == v.len() {
            return Err(AuthorParseError::InvalidFormat);
        }
        let p2 = last_space(v.as_slice(), p1);
        if p2 == p1 {
            return Err(AuthorParseError::InvalidFormat);
        }
        let zone = string_from_range(v.as_slice(), p1 + 1, v.len());
        let ts_text = string_from_range(v.as_slice(), p2 + 1, p1);
        let ts = match parse_i64(ts_text.as_str()) {
            Some(t) => t,
            None => {
                return Err(AuthorParseError::InvalidTimestamp);
            },
        };
        let ne = vstd::slice::slice_subrange(v.as_slice(), 0, p2);
        let lt = find_char_exec(ne, 0, '<');
        let gt = find_char_exec(ne, 0, '>');
        if lt >= ne.len() {
            return Err(AuthorParseError::MissingOpen);
        }
        if gt >= ne.len() {
            return Err(AuthorParseError::MissingClose);
        }
        if gt < lt + 1 {
            return Err(AuthorParseError::MisplacedClose);
        }
        if !timestamp_valid(ts) {
            return Err(AuthorParseError::InvalidTimestamp);
        }
        proof {
            reveal(read_zone);
        }
        let off = match zone_offset(zone.as_str()) {
            Some(o) => o,
            None => {
                return Err(AuthorParseError::InvalidTimezone);
            },
        };
        let head = vstd::slice::slice_subrange(ne, 0, lt);
        let (a, b) = trim_bounds(head);
        let name = string_from_range(head, a, b);
        let email = string_from_range(ne, lt + 1, gt);
        Ok(Author { name, email, timestamp: ts, offset: off })
    }
}

/// The position of the last space before `end`, or `end` when there is none.
fn last_space(v: &[char], end: usize) -> (r: usize)
    requires
        end <= v@.len(),
    ensures
        r <= end,
        r == end <==> rfind_char(v@.subrange(0, end as int), ' ') < 0,
        r < end ==> r as int == rfind_char(v@.subrange(0, end as int), ' '),
{
    let ghost s = v@.subrange(0, end as int);
    proof {
        lemma_rfind_char(s, ' ');
    }
    let mut i = end;
    while i > 0
        invariant
            i <= end <= v@.len(),
            s == v@.subrange(0, end as int),
            rfind_char(s, ' ') == rfind_char(v@.subrange(0, i as int), ' '),
        decreases i,
    {
        assert(v@.subrange(0, i as int).drop_last() =~= v@.subrange(0, i - 1));
        if v[i - 1] == ' ' {
            return i - 1;
        }
        i = i - 1;
    }
    assert(v@.subrange(0, 0) =~= Seq::<char>::empty());
    end
}

/// How reading a commit fails.
pub enum CommitParseError {
    /// The content is not UTF-8.
    Utf8,
    /// There is no tree line.
    MissingTree,
    /// The first line is not a tree line.
    InvalidTree,
    /// The tree identifier is invalid.
    TreeId,
    /// The lines end before the author line.
    MissingAuthor,
    /// A parent identifier is invalid.
    ParentId,
    /// The line after the parents is not an author line.
    InvalidAuthorLine,
    /// The author is invalid.
    Author(AuthorParseError),
    /// There is no committer line.
    MissingCommitter,
    /// The line after the author is not a committer line.
    InvalidCommitterLine,
    /// The committer is invalid.
    Committer(AuthorParseError),
}

/// The view of a commit: tree, parents, author, committer and message.
pub type CommitView = (Seq<char>, Seq<Seq<char>>, AuthorView, AuthorView, Seq<char>);

/// The parent identifiers on the lines from `i`, up to the first line that
/// is not a parent line.
pub open spec fn parse_parents(ls: Seq<Seq<char>>, i: int) -> Result<
    Seq<Seq<char>>,
    CommitParseError,
>
    decreases ls.len() - i,
{
    if i < 0 || i >= ls.len() {
        Err(CommitParseError::MissingAuthor)
    } else if is_prefix("parent "@, ls[i]) {
        let id = ls[i].skip(7);
        if !is_object_id_text(id) {
            Err(CommitParseError::ParentId)
        } else {
            match parse_parents(ls, i + 1) {
                Ok(rest) => Ok(seq![id] + rest),
                Err(e) => Err(e),
            }
        }
    } else {
        Ok(seq![])
    }
}

/// Reads a commit from its lines.
pub open spec fn parse_commit_lines(ls: Seq<Seq<char>>) -> Result<CommitView, CommitParseError> {
    if ls.len() == 0 {
        Err(CommitParseError::MissingTree)
    } else if !is_prefix("tree "@, ls[0]) {
        Err(CommitParseError::InvalidTree)
    } else if !is_object_id_text(ls[0].skip(5)) {
        Err(CommitParseError::TreeId)
    } else {
        match parse_parents(ls, 1) {
            Err(e) => Err(e),
            Ok(parents) => {
                let a: int = 1 + parents.len() as int;
                if !is_prefix("author "@, ls[a]) {
                    Err(CommitParseError::InvalidAuthorLine)
                } else {
                    match parse_author(ls[a].skip(7)) {
                        Err(e) => Err(CommitParseError::Author(e)),
                        Ok(author) => if a + 1 >= ls.len() {
                            Err(CommitParseError::MissingCommitter)
                        } else if !is_prefix("committer "@, ls[a + 1]) {
                            Err(CommitParseError::InvalidCommitterLine)
                        } else {
                            match parse_author(ls[a + 1].skip(10)) {
                                Err(e) => Err(CommitParseError::Committer(e)),
                                Ok(_) => Ok(
                                    (
                                        ls[0].skip(5),
                                        parents,
                                        author,
                                        author,
                                        join_lines(
                                            ls.skip(
                                                if a + 3 <= ls.len() {
                                                    a + 3
                                                } else {
                                                    ls.len() as int
                                                },
                                            ),
                                        ),
                                    ),
                                ),
                            }
                        },
                    }
                }
            },
        }
    }
}

/// Reads a commit from its content (the bytes after the header).
pub open spec fn parse_commit(content: Seq<u8>) -> Result<CommitView, CommitParseError> {
    if !vstd::utf8::valid_utf8(content) {
        Err(CommitParseError::Utf8)
    } else {
        parse_commit_lines(lines_of(vstd::utf8::decode_utf8(content)))
    }
}

/// The error of reading a commit, as reported.
pub open spec fn commit_error_matches(e: ObjectError, k: CommitParseError) -> bool {
    match k {
        CommitParseError::Utf8 => e is Utf8,
        CommitParseError::MissingTree => e matches ObjectError::InvalidFormat(m) && m@
            == "Invalid commit object: missing tree line"@,
        CommitParseError::InvalidTree => e matches ObjectError::InvalidFormat(m) && m@
            == "Invalid commit object: invalid tree line"@,
        CommitParseError::TreeId => e is Id,
        CommitParseError::MissingAuthor => e matches ObjectError::InvalidFormat(m) && m@
            == "Invalid commit object: missing author line"@,
        CommitParseError::ParentId => e is Id,
        CommitParseError::InvalidAuthorLine => e matches ObjectError::InvalidFormat(m) && m@
            == "Invalid commit object: invalid author line"@,
        CommitParseError::Author(a) => e matches ObjectError::AuthorParse(b) && a == b,
        CommitParseError::MissingCommitter => e matches ObjectError::InvalidFormat(m) && m@
            == "Invalid commit object: missing committer line"@,
        CommitParseError::InvalidCommitterLine => e matches ObjectError::InvalidFormat(m) && m@
            == "Invalid commit object: invalid committer line"@,
        CommitParseError::Committer(a) => e matches ObjectError::AuthorParse(b) && a == b,
    }
}

/// An author as stored: `name <email> time zone`.
pub open spec fn author_text(a: AuthorView) -> Seq<char> {
    a.0 + " <"@ + a.1 + "> "@ + signed_decimal(a.2) + seq![' '] + zone_text(a.3)
}

/// The lines of a stored commit.
pub open spec fn commit_lines(c: CommitView) -> Seq<Seq<char>> {
    seq!["tree "@ + c.0] + c.1.map_values(|p: Seq<char>| "parent "@ + p) + seq![
        "author "@ + author_text(c.2),
        "committer "@ + author_text(c.3),
        Seq::<char>::empty(),
        c.4,
    ]
}

/// The first line of a message, or nothing.
pub open spec fn first_line(m: Seq<char>) -> Seq<char> {
    if lines_of(m).len() > 0 {
        lines_of(m)[0]
    } else {
        Seq::empty()
    }
}

/// A snapshot of the repository with its history and metadata.
#[derive(Debug)]
pub struct Commit {
    parents: Vec<ObjectId>,
    tree_oid: ObjectId,
    author: Author,
    committer: Author,
    message: String,
}

/// The views of a list of object identifiers.
pub open spec fn oids_view(s: Seq<ObjectId>) -> Seq<Seq<char>> {
    s.map_values(|o: ObjectId| o@)
}

/// The error of a line that is missing or malformed.
fn format_error(message: &str) -> (e: ObjectError)
    ensures
        e matches ObjectError::InvalidFormat(m) && m@ == message@,
{
    ObjectError::InvalidFormat(message.to_owned())
}

impl Commit {
    /// The view of the commit.
    pub closed spec fn view_commit(self) -> CommitView {
        (
            self.tree_oid@,
            oids_view(self.parents@),
            self.author.view_author(),
            self.committer.view_author(),
            self.message@,
        )
    }

    /// A commit whose committer is its author.
    pub fn new(parents: Vec<ObjectId>, tree_oid: ObjectId, author: Author, message: String) -> (r:
        Self)
        ensures
            r.view_commit() == (
                tree_oid@,
                oids_view(parents@),
                author.view_author(),
                author.view_author(),
                message@,
            ),
    {
        proof {
            use_type_invariant(&author);
        }
        let committer = Author {
            name: author.name.clone(),
            email: author.email.clone(),
            timestamp: author.timestamp,
            offset: author.offset,
        };
        Commit { parents, tree_oid, author, committer, message }
    }

    /// The first line of the message.
    pub fn short_message(&self) -> (r: String)
        ensures
            r@ == first_line(self.view_commit().4),
    {
        let ls = split_lines(self.message.as_str());
        if ls.len() > 0 {
            assert(ls@[0]@ == lines_of(self.message@)[0]);
            ls[0].clone()
        } else {
            String::new()
        }
    }

    /// The message.
    pub fn message(&self) -> (r: &str)
        ensures
            r@ == self.view_commit().4,
    {
        self.message.as_str()
    }

    /// The tree.
    pub fn tree_oid(&self) -> (r: &ObjectId)
        ensures
            r@ == self.view_commit().0,
    {
        &self.tree_oid
    }

    /// The first parent, if any.
    pub fn parent(&self) -> (r: Option<&ObjectId>)
        ensures
            match r {
                Some(p) => self.view_commit().1.len() > 0 && p@ == self.view_commit().1[0],
                None => self.view_commit().1.len() == 0,
            },
    {
        if self.parents.len() > 0 {
            Some(&self.parents[0])
        } else {
            None
        }
    }

    /// All parents.
    pub fn parents(&self) -> (r: &Vec<ObjectId>)
        ensures
            oids_view(r@) == self.view_commit().1,
    {
        &self.parents
    }

    /// The author.
    pub fn author(&self) -> (r: &Author)
        ensures
            r.view_author() == self.view_commit().2,
    {
        &self.author
    }

    /// The author's time, in seconds since the epoch.
    pub fn timestamp(&self) -> (r: i64)
        ensures
            r as int == self.view_commit().2.2,
    {
        self.author.timestamp()
    }

    /// The lines of the stored commit joined with `\n`.
    pub fn display(&self) -> (r: String)
        ensures
            r@ == join_lines(commit_lines(self.view_commit())),
    {
        let mut ls: Vec<String> = Vec::new();
        let mut t = String::new();
        push_str(&mut t, "tree ");
        push_str(&mut t, self.tree_oid.as_str());
        ls.push(t);
        let mut i: usize = 0;
        while i < self.parents.len()
            invariant
                i <= self.parents@.len(),
                ls@.map_values(|x: String| x@) == seq!["tree "@ + self.tree_oid@] + oids_view(
                    self.parents@,
                ).take(i as int).map_values(|p: Seq<char>| "parent "@ + p),
            decreases self.parents@.len() - i,
        {
            let ghost before = ls@.map_values(|x: String| x@);
            let mut p = String::new();
            push_str(&mut p, "parent ");
            push_str(&mut p, self.parents[i].as_str());
            ls.push(p);
            assert(ls@.map_values(|x: String| x@) =~= before.push("parent "@ + self.parents@[i as int]@));
            assert(oids_view(self.parents@).take(i + 1) =~= oids_view(self.parents@).take(
                i as int,
            ).push(self.parents@[i as int]@));
            assert(ls@.map_values(|x: String| x@) =~= seq!["tree "@ + self.tree_oid@] + oids_view(
                self.parents@,
            ).take(i + 1).map_values(|p: Seq<char>| "parent "@ + p));
            i = i + 1;
        }
        assert(oids_view(self.parents@).take(self.parents@.len() as int) =~= oids_view(
            self.parents@,
        ));
        let mut a = String::new();
        push_str(&mut a, "author ");
        let ad = self.author.display();
        push_str(&mut a, ad.as_str());
        ls.push(a);
        let mut c = String::new();
        push_str(&mut c, "committer ");
        let cd = self.committer.display();
        push_str(&mut c, cd.as_str());
        ls.push(c);
        ls.push(String::new());
        ls.push(self.message.clone());
        assert(ls@.map_values(|x: String| x@) =~= commit_lines(self.view_commit()));
        assert(ls@.map_values(|x: String| x@).skip(0) =~= commit_lines(self.view_commit()));
        join_with_newlines(&ls, 0)
    }

    /// The stored bytes: the header, then the lines of the commit.
    pub fn serialize(&self) -> (r: Vec<u8>)
        ensures
            r@ == framed(
                ObjectType::Commit,
                vstd::utf8::encode_utf8(join_lines(commit_lines(self.view_commit()))),
            ),
    {
        let text = self.display();
        let bytes = utf8_bytes(text.as_str());
        frame(ObjectType::Commit, bytes.as_slice())
    }

    /// The identifier of the commit.
    pub fn object_id(&self) -> (r: ObjectId)
        ensures
            r@ == hex_encode(
                sha1_digest(
                    framed(
                        ObjectType::Commit,
                        vstd::utf8::encode_utf8(join_lines(commit_lines(self.view_commit()))),
                    ),
                ),
            ),
    {
        let bytes = self.serialize();
        object_id_of(bytes.as_slice())
    }

}

/// The parents read from line `i` are followed by the line that ends them.
proof fn lemma_parse_parents_len(ls: Seq<Seq<char>>, i: int)
    requires
        parse_parents(ls, i) is Ok,
    ensures
        i + parse_parents(ls, i)->Ok_0.len() < ls.len(),
        !is_prefix("parent "@, ls[i + parse_parents(ls, i)->Ok_0.len()]),
    decreases ls.len() - i,
{
    if 0 <= i < ls.len() && is_prefix("parent "@, ls[i]) {
        lemma_parse_parents_len(ls, i + 1);
    }
}

/// Whether a line made of a prefix without line feeds and a line that can be
/// read back can itself be read back.
proof fn lemma_prefixed_line(p: Seq<char>, x: Seq<char>)
    requires
        !p.contains('\n'),
        plain_line(x),
        x.len() > 0,
    ensures
        plain_line(p + x),
{
    lemma_concat_lacks(p, x, '\n');
    assert((p + x).last() == x.last());
}

/// An object identifier can be read back as a line.
proof fn lemma_object_id_line(id: Seq<char>)
    requires
        is_object_id_text(id),
    ensures
        plain_line(id),
        id.len() > 0,
{
    assert forall|i: int| 0 <= i < id.len() implies id[i] != '\n' by {
        assert(is_hex_char(id[i]));
    }
    assert(is_hex_char(id[id.len() - 1]));
}

/// An author's stored text can be read back as a line.
proof fn lemma_author_line(a: AuthorView)
    requires
        author_reads_back(a),
    ensures
        plain_line(author_text(a)),
        author_text(a).len() > 0,
{
    reveal_strlit(" <");
    reveal_strlit("> ");
    let sd = signed_decimal(a.2);
    let zt = zone_text(a.3);
    lemma_zone_text_chars(a.3);
    lemma_signed_decimal_chars(a.2);
    assert forall|i: int| 0 <= i < sd.len() implies sd[i] != '\n' by {
        assert(sd[i] == '-' || is_digit(sd[i]));
    }
    assert forall|i: int| 0 <= i < zt.len() implies zt[i] != '\n' by {
        assert(zt[i] == '+' || zt[i] == '-' || is_digit(zt[i]));
    }
    let lt = seq![' ', '<'];
    let gt = seq!['>', ' '];
    let sp = seq![' '];
    assert forall|i: int| 0 <= i < lt.len() implies lt[i] != '\n' by {}
    assert forall|i: int| 0 <= i < gt.len() implies gt[i] != '\n' by {}
    assert forall|i: int| 0 <= i < sp.len() implies sp[i] != '\n' by {}
    lemma_concat_lacks(a.0, lt, '\n');
    lemma_concat_lacks(a.0 + lt, a.1, '\n');
    lemma_concat_lacks(a.0 + lt + a.1, gt, '\n');
    lemma_concat_lacks(a.0 + lt + a.1 + gt, sd, '\n');
    lemma_concat_lacks(a.0 + lt + a.1 + gt + sd, sp, '\n');
    lemma_concat_lacks(a.0 + lt + a.1 + gt + sd + sp, zt, '\n');
    assert(author_text(a) =~= a.0 + lt + a.1 + gt + sd + sp + zt);
    assert(author_text(a).last() == zt[4]);
    assert(zt[4] == '+' || zt[4] == '-' || is_digit(zt[4]));
}

/// The parents of a commit read back from its parent lines.
proof fn lemma_parents_read_back(c: CommitView, ls: Seq<Seq<char>>, k: int)
    requires
        0 <= k <= c.1.len(),
        ls.len() > c.1.len() + 1,
        forall|i: int| 0 <= i < c.1.len() ==> is_object_id_text(#[trigger] c.1[i]),
        forall|i: int| 0 <= i < c.1.len() ==> #[trigger] ls[1 + i] == "parent "@ + c.1[i],
        ls[1 + c.1.len() as int] == "author "@ + author_text(c.2),
    ensures
        parse_parents(ls, 1 + k) == Ok::<Seq<Seq<char>>, CommitParseError>(c.1.skip(k)),
    decreases c.1.len() - k,
{
    reveal_strlit("parent ");
    reveal_strlit("author ");
    if k == c.1.len() {
        let l = ls[1 + k];
        assert(l[0] == 'a');
        assert(!is_prefix("parent "@, l)) by {
            if is_prefix("parent "@, l) {
                assert(l.subrange(0, 7)[0] == l[0]);
            }
        }
        assert(c.1.skip(k) =~= Seq::<Seq<char>>::empty());
    } else {
        let l = ls[1 + k];
        assert(l == "parent "@ + c.1[k]);
        assert(l.subrange(0, 7) =~= "parent "@);
        assert(l.skip(7) =~= c.1[k]);
        lemma_parents_read_back(c, ls, k + 1);
        assert(c.1.skip(k) =~= seq![c.1[k]] + c.1.skip(k + 1));
    }
}

/// Whether a commit reads back from its stored form: its tree and parents are
/// object identifiers, its committer is its author and reads back, and its
/// message has no `\r` before a line feed and does not end with one.
pub open spec fn commit_reads_back(c: CommitView) -> bool {
    &&& is_object_id_text(c.0)
    &&& forall|i: int| 0 <= i < c.1.len() ==> is_object_id_text(#[trigger] c.1[i])
    &&& c.3 == c.2
    &&& author_reads_back(c.2)
    &&& plain_lines(c.4)
}

/// A commit written as its lines reads back as the same commit.
#[verifier::spinoff_prover]
#[verifier::rlimit(100)]
pub proof fn lemma_commit_read_back(c: CommitView)
    requires
        commit_reads_back(c),
    ensures
        parse_commit(vstd::utf8::encode_utf8(join_lines(commit_lines(c)))) == Ok::<
            CommitView,
            CommitParseError,
        >(c),
{
    reveal_strlit("tree ");
    reveal_strlit("parent ");
    reveal_strlit("author ");
    reveal_strlit("committer ");
    let np: int = c.1.len() as int;
    let pl = c.1.map_values(|p: Seq<char>| "parent "@ + p);
    let al = "author "@ + author_text(c.2);
    let cl = "committer "@ + author_text(c.3);
    let hs = seq!["tree "@ + c.0] + pl + seq![al, cl];
    let m = c.4;
    let e = Seq::<char>::empty();
    let l = hs + seq![e, m];
    assert(commit_lines(c) =~= l);
    assert(l.drop_last() =~= hs + seq![e]);
    assert((hs + seq![e]).drop_last() =~= hs);
    assert(join_lines(hs + seq![e]) == join_lines(hs) + seq!['\n'] + e);
    assert(join_lines(l) == join_lines(hs + seq![e]) + seq!['\n'] + m);
    let tail = seq!['\n'] + m;
    let text = join_lines(l);
    assert(text =~= join_lines(hs) + seq!['\n'] + tail);
    lemma_object_id_line(c.0);
    lemma_author_line(c.2);
    lemma_prefixed_line("tree "@, c.0);
    lemma_prefixed_line("author "@, author_text(c.2));
    lemma_prefixed_line("committer "@, author_text(c.3));
    assert forall|i: int| 0 <= i < hs.len() implies plain_line(#[trigger] hs[i]) by {
        if 1 <= i < 1 + np {
            assert(hs[i] == "parent "@ + c.1[i - 1]);
            lemma_object_id_line(c.1[i - 1]);
            lemma_prefixed_line("parent "@, c.1[i - 1]);
        }
    }
    lemma_lines_of_joined(hs, tail);
    assert(tail.subrange(0, 0) =~= e);
    lemma_lines_from_line(tail, 0, e);
    lemma_lines_from_shift(seq!['\n'], m, 0);
    assert(lines_of(tail) =~= seq![e] + lines_of(m));
    let ls = hs + (seq![e] + lines_of(m));
    vstd::utf8::encode_utf8_valid_utf8(text);
    vstd::utf8::encode_utf8_decode_utf8(text);
    assert(lines_of(vstd::utf8::decode_utf8(vstd::utf8::encode_utf8(text))) == ls);
    assert(ls[0] == "tree "@ + c.0);
    assert(ls[0].subrange(0, 5) =~= "tree "@);
    assert(ls[0].skip(5) =~= c.0);
    assert forall|i: int| 0 <= i < np implies #[trigger] ls[1 + i] == "parent "@ + c.1[i] by {
        assert(ls[1 + i] == pl[i]);
    }
    assert(ls[1 + np] == al);
    lemma_parents_read_back(c, ls, 0);
    assert(c.1.skip(0) =~= c.1);
    assert(al.subrange(0, 7) =~= "author "@);
    assert(al.skip(7) =~= author_text(c.2));
    lemma_author_read_back(c.2);
    assert(ls[2 + np] == cl);
    assert(cl.subrange(0, 10) =~= "committer "@);
    assert(cl.skip(10) =~= author_text(c.3));
    assert(ls.skip(np + 4) =~= lines_of(m));
    lemma_join_lines_of(m);
}

impl Unpackable for Commit {
    /// Reads a commit from its content (the bytes after the header). The
    /// committer line is checked and the author is taken as committer.
    fn deserialize(content: &[u8]) -> (r: Result<Self, ObjectError>)
        ensures
            r is Ok <==> parse_commit(content@) is Ok,
            r matches Ok(c) ==> c.view_commit() == parse_commit(content@)->Ok_0,
            r matches Err(e) ==> commit_error_matches(e, parse_commit(content@)->Err_0),
    {
        let text = match string_from_utf8(crate::text::bytes_to_vec(content)) {
            Some(t) => t,
            None => {
                return Err(ObjectError::Utf8);
            },
        };
        let ls = split_lines(text.as_str());
        let ghost lv = ls@.map_values(|x: String| x@);
        assert(lv == lines_of(vstd::utf8::decode_utf8(content@)));
        if ls.len() == 0 {
            return Err(format_error("Invalid commit object: missing tree line"));
        }
        assert(lv[0] == ls@[0]@);
        let tree_text = match crate::text::strip_prefix_str(ls[0].as_str(), "tree ") {
            Some(t) => t,
            None => {
                return Err(format_error("Invalid commit object: invalid tree line"));
            },
        };
        proof {
            reveal_strlit("tree ");
            reveal_strlit("parent ");
            reveal_strlit("author ");
            reveal_strlit("committer ");
        }
        let tree_oid = match ObjectId::try_parse(tree_text) {
            Ok(o) => o,
            Err(e) => {
                return Err(ObjectError::Id(e));
            },
        };
        let mut parents: Vec<ObjectId> = Vec::new();
        let mut i: usize = 1;
        assert(oids_view(parents@) =~= Seq::<Seq<char>>::empty());
        assert(oids_view(parents@) + parse_parents(lv, 1)->Ok_0 =~= parse_parents(lv, 1)->Ok_0);
        loop
            invariant
                1 <= i <= ls@.len(),
                lv == ls@.map_values(|x: String| x@),
                vstd::utf8::valid_utf8(content@),
                lv == lines_of(vstd::utf8::decode_utf8(content@)),
                lv.len() > 0,
                is_prefix("tree "@, lv[0]),
                is_object_id_text(lv[0].skip(5)),
                tree_oid@ == lv[0].skip(5),
                i == 1 + oids_view(parents@).len(),
                parse_parents(lv, 1) == match parse_parents(lv, i as int) {
                    Ok(rest) => Ok(oids_view(parents@) + rest),
                    Err(e) => Err::<Seq<Seq<char>>, CommitParseError>(e),
                },
            ensures
                i < ls@.len(),
                !is_prefix("parent "@, lv[i as int]),
                parse_parents(lv, 1) == Ok::<Seq<Seq<char>>, CommitParseError>(oids_view(parents@)),
                i == 1 + oids_view(parents@).len(),
            decreases ls@.len() - i,
        {
            proof {
                reveal_strlit("parent ");
            }
            if i >= ls.len() {
                return Err(format_error("Invalid commit object: missing author line"));
            }
            assert(lv[i as int] == ls@[i as int]@);
            match crate::text::strip_prefix_str(ls[i].as_str(), "parent ") {
                Some(id) => {
                    let oid = match ObjectId::try_parse(id) {
                        Ok(o) => o,
                        Err(e) => {
                            return Err(ObjectError::Id(e));
                        },
                    };
                    let ghost before = oids_view(parents@);
                    parents.push(oid);
                    proof {
                        assert(oids_view(parents@) =~= before.push(lv[i as int].skip(7)));
                        match parse_parents(lv, i + 1) {
                            Ok(rest) => {
                                assert(before + (seq![lv[i as int].skip(7)] + rest) =~= before.push(
                                    lv[i as int].skip(7),
                                ) + rest);
                            },
                            Err(_) => {},
                        }
                    }
                    i = i + 1;
                },
                None => {
                    assert(oids_view(parents@) + Seq::<Seq<char>>::empty() =~= oids_view(parents@));
                    proof {
                        lemma_parse_parents_len(lv, 1);
                    }
                    break ;
                },
            }
        }
        assert(lv[i as int] == ls@[i as int]@);
        let author_text = match crate::text::strip_prefix_str(ls[i].as_str(), "author ") {
            Some(t) => t,
            None => {
                return Err(format_error("Invalid commit object: invalid author line"));
            },
        };
        let author = match Author::try_from(author_text.as_str()) {
            Ok(a) => a,
            Err(e) => {
                return Err(ObjectError::AuthorParse(e));
            },
        };
        if i + 1 >= ls.len() {
            return Err(format_error("Invalid commit object: missing committer line"));
        }
        assert(lv[i + 1] == ls@[i + 1]@);
        let committer_text = match crate::text::strip_prefix_str(ls[i + 1].as_str(), "committer ") {
            Some(t) => t,
            None => {
                return Err(format_error("Invalid commit object: invalid committer line"));
            },
        };
        match Author::try_from(committer_text.as_str()) {
            Ok(_) => {},
            Err(e) => {
                return Err(ObjectError::AuthorParse(e));
            },
        }
        let start = if ls.len() - i >= 3 {
            i + 3
        } else {
            ls.len()
        };
        let message = join_with_newlines(&ls, start);
        Ok(Commit::new(parents, tree_oid, author, message))
    }
}

} // verus!
