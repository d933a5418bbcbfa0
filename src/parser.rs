use vstd::prelude::*;

use crate::board::{Color, Tile};
use crate::handler::{Request, Response, ResponseView};
use crate::position::Position;

verus! {

/// Why a request could not be read: a description, and the text it concerns.
#[derive(Debug, PartialEq, Eq)]
pub struct ParsingError {
    message: String,
    token: String,
}

/// A parsing error as mathematical values.
pub struct ParsingErrorView {
    pub message: Seq<char>,
    pub token: Seq<char>,
}

impl View for ParsingError {
    type V = ParsingErrorView;

    closed spec fn view(&self) -> ParsingErrorView {
        ParsingErrorView { message: self.message@, token: self.token@ }
    }
}

/// The error for `token`, which should have been the number named by `role`.
pub open spec fn invalid_number_error(role: Seq<char>, token: Seq<char>) -> ParsingErrorView {
    ParsingErrorView {
        message: "Could not be parsed into a number ("@ + role + ")"@,
        token,
    }
}

/// The error for `token`, in which the part named by `role` is absent.
pub open spec fn missing_error(role: Seq<char>, token: Seq<char>) -> ParsingErrorView {
    ParsingErrorView { message: "Could not find "@ + role, token }
}

/// The error for `token`, which names no known request.
pub open spec fn unrecognized_error(token: Seq<char>) -> ParsingErrorView {
    ParsingErrorView { message: "Could not recognize request type"@, token }
}

/// How a parsing error reads in a response.
pub open spec fn error_text(e: ParsingErrorView) -> Seq<char> {
    "ParsingError! Could not parse \""@ + e.token + "\". "@ + e.message + "."@
}

impl ParsingError {
    /// `token` should have been the number named by `role`.
    pub fn invalid_number(role: &str, token: &str) -> (r: ParsingError)
        ensures
            r@ == invalid_number_error(role@, token@),
    {
        let mut message = "Could not be parsed into a number (".to_string();
        message.append(role);
        message.append(")");
        ParsingError { message, token: token.to_string() }
    }

    /// The part named by `role` is absent from `token`.
    pub fn missing(role: &str, token: &str) -> (r: ParsingError)
        ensures
            r@ == missing_error(role@, token@),
    {
        let mut message = "Could not find ".to_string();
        message.append(role);
        ParsingError { message, token: token.to_string() }
    }

    /// `token` names no known request.
    pub fn unrecognized_request_type(token: &str) -> (r: ParsingError)
        ensures
            r@ == unrecognized_error(token@),
    {
        ParsingError {
            message: "Could not recognize request type".to_string(),
            token: token.to_string(),
        }
    }

    /// The error as one line of text.
    pub fn describe(&self) -> (r: String)
        ensures
            r@ == error_text(self@),
    {
        let mut r = "ParsingError! Could not parse \"".to_string();
        r.append(self.token.as_str());
        r.append("\". ");
        r.append(self.message.as_str());
        r.append(".");
        r
    }
}

/// Index of the first `sep` in `s` at or after `i`, or the length of `s` if there is none.
pub open spec fn find_from(s: Seq<char>, sep: char, i: int) -> int
    decreases s.len() - i,
{
    if i < 0 || i >= s.len() {
        s.len() as int
    } else if s[i] == sep {
        i
    } else {
        find_from(s, sep, i + 1)
    }
}

/// The text of `s` before its first `sep` (all of `s` if there is none).
pub open spec fn first_field(s: Seq<char>, sep: char) -> Seq<char> {
    s.subrange(0, find_from(s, sep, 0))
}

/// The text of `s` after its first `sep`, if there is one.
pub open spec fn after_first(s: Seq<char>, sep: char) -> Option<Seq<char>> {
    let e = find_from(s, sep, 0);
    if e < s.len() {
        Some(s.subrange(e + 1, s.len() as int))
    } else {
        None
    }
}

/// Whether `c` is one of the ASCII digits `0` to `9`.
pub open spec fn is_digit(c: char) -> bool {
    '0' as u32 <= c as u32 <= '9' as u32
}

/// Value of the decimal digits `d`.
pub open spec fn digits_value(d: Seq<char>) -> nat
    decreases d.len(),
{
    if d.len() == 0 {
        0
    } else {
        digits_value(d.drop_last()) * 10 + (d.last() as u32 - '0' as u32) as nat
    }
}

/// `s` without a leading `+`.
pub open spec fn unsigned_digits(s: Seq<char>) -> Seq<char> {
    if s.len() > 0 && s[0] == '+' {
        s.drop_first()
    } else {
        s
    }
}

/// The non-negative integer that `s` writes in decimal, with an optional
/// leading `+`, if it fits in a `usize`.
pub open spec fn usize_of(s: Seq<char>) -> Option<usize> {
    let d = unsigned_digits(s);
    if d.len() > 0 && (forall|i: int| 0 <= i < d.len() ==> is_digit(#[trigger] d[i]))
        && digits_value(d) <= usize::MAX {
        Some(digits_value(d) as usize)
    } else {
        None
    }
}

proof fn lemma_find_from_step(s: Seq<char>, sep: char, i: int)
    requires
        0 <= i < s.len(),
        s[i] != sep,
    ensures
        find_from(s, sep, i) == find_from(s, sep, i + 1),
{
}

proof fn lemma_find_from_range(s: Seq<char>, sep: char, i: int)
    requires
        0 <= i <= s.len(),
    ensures
        i <= find_from(s, sep, i) <= s.len(),
        find_from(s, sep, i) < s.len() ==> s[find_from(s, sep, i)] == sep,
    decreases s.len() - i,
{
    if i < s.len() && s[i] != sep {
        lemma_find_from_range(s, sep, i + 1);
    }
}

/// Prefixes never have a larger value than the whole.
proof fn lemma_digits_value_prefix(d: Seq<char>, k: int)
    requires
        0 <= k <= d.len(),
    ensures
        digits_value(d.subrange(0, k)) <= digits_value(d),
    decreases d.len(),
{
    if k < d.len() {
        lemma_digits_value_prefix(d.drop_last(), k);
        assert(d.drop_last().subrange(0, k) =~= d.subrange(0, k));
    } else {
        assert(d.subrange(0, k) =~= d);
    }
}

/// Index of the first `sep` in `s` at or after `from`, or the length of `s`.
fn field_end(s: &str, sep: char, from: usize) -> (r: usize)
    requires
        from <= s@.len(),
    ensures
        r == find_from(s@, sep, from as int),
{
    let n = s.unicode_len();
    let mut i = from;
    while i < n
        invariant
            n == s@.len(),
            from <= i <= n,
            find_from(s@, sep, from as int) == find_from(s@, sep, i as int),
        decreases n - i,
    {
        if s.get_char(i) == sep {
            return i;
        }
        proof {
            lemma_find_from_step(s@, sep, i as int);
        }
        i = i + 1;
    }
    i
}

/// The number that `s` writes in decimal, as `usize_of` reads it.
fn parse_usize(s: &str) -> (r: Option<usize>)
    ensures
        r == usize_of(s@),
{
    let n = s.unicode_len();
    let mut start: usize = 0;
    if n > 0 && s.get_char(0) == '+' {
        start = 1;
    }
    let ghost d = unsigned_digits(s@);
    assert(d =~= s@.subrange(start as int, n as int));
    if start >= n {
        return None;
    }
    let mut acc: usize = 0;
    let mut i: usize = start;
    assert(d.subrange(0, 0) =~= Seq::<char>::empty());
    while i < n
        invariant
            n == s@.len(),
            start <= i <= n,
            d == s@.subrange(start as int, n as int),
            d == unsigned_digits(s@),
            forall|j: int| 0 <= j < i - start ==> is_digit(#[trigger] d[j]),
            acc == digits_value(d.subrange(0, i - start)),
        decreases n - i,
    {
        let c = s.get_char(i);
        assert(c == d[i - start]);
        if !((c as u32) >= ('0' as u32) && (c as u32) <= ('9' as u32)) {
            assert(!is_digit(d[i - start]));
            return None;
        }
        let digit = (c as u32 - '0' as u32) as usize;
        let ghost next = d.subrange(0, i + 1 - start);
        assert(next.drop_last() =~= d.subrange(0, i - start));
        assert(digits_value(next) == acc * 10 + digit);
        match acc.checked_mul(10) {
            None => {
                proof {
                    lemma_digits_value_prefix(d, i + 1 - start);
                    assert(digits_value(d) > usize::MAX);
                }
                return None;
            },
            Some(tens) => match tens.checked_add(digit) {
                None => {
                    proof {
                        lemma_digits_value_prefix(d, i + 1 - start);
                        assert(digits_value(d) > usize::MAX);
                    }
                    return None;
                },
                Some(v) => {
                    acc = v;
                },
            },
        }
        i = i + 1;
    }
    assert(d.subrange(0, n - start) =~= d);
    Some(acc)
}

/// What `Position::parse` makes of `s`: two decimal numbers separated by `,`;
/// text after a second `,` is ignored.
pub open spec fn position_of(s: Seq<char>) -> Result<Position, ParsingErrorView> {
    let x_text = first_field(s, ',');
    match usize_of(x_text) {
        None => Err(invalid_number_error("Position::x"@, x_text)),
        Some(x) => match after_first(s, ',') {
            None => Err(missing_error("Position::y"@, s)),
            Some(rest) => {
                let y_text = first_field(rest, ',');
                match usize_of(y_text) {
                    None => Err(invalid_number_error("Position::y"@, y_text)),
                    Some(y) => Ok(Position { x, y }),
                }
            },
        },
    }
}

/// What `Request::parse` makes of `s`: the text before the first `;` names
/// the request; a turn takes its position from the text between the first
/// and the second `;`.
pub open spec fn request_of(s: Seq<char>) -> Result<Request, ParsingErrorView> {
    let kind = first_field(s, ';');
    if kind == "Start"@ {
        Ok(Request::Start)
    } else if kind == "DoTurn"@ {
        match after_first(s, ';') {
            None => Err(missing_error("Request::DoTurn::Position"@, s)),
            Some(rest) => match position_of(first_field(rest, ';')) {
                Ok(p) => Ok(Request::DoTurn(p)),
                Err(e) => Err(e),
            },
        }
    } else if kind == "Cancel"@ {
        Ok(Request::Cancel)
    } else {
        Err(unrecognized_error(kind))
    }
}

/// Whether two texts are equal, character by character.
fn same_text(a: &str, b: &str) -> (r: bool)
    ensures
        r == (a@ == b@),
{
    let n = a.unicode_len();
    if n != b.unicode_len() {
        return false;
    }
    let mut i: usize = 0;
    while i < n
        invariant
            n == a@.len(),
            n == b@.len(),
            i <= n,
            forall|j: int| 0 <= j < i ==> a@[j] == b@[j],
        decreases n - i,
    {
        if a.get_char(i) != b.get_char(i) {
            return false;
        }
        i = i + 1;
    }
    assert(a@ =~= b@);
    true
}

/// Splits `s` at its first `sep`: the text before it, and the text after it if there is one.
fn split_first<'a>(s: &'a str, sep: char) -> (r: (&'a str, Option<&'a str>))
    ensures
        r.0@ == first_field(s@, sep),
        match after_first(s@, sep) {
            Some(rest) => r.1 matches Some(t) && t@ == rest,
            None => r.1 is None,
        },
{
    let n = s.unicode_len();
    let e = field_end(s, sep, 0);
    proof {
        lemma_find_from_range(s@, sep, 0);
    }
    let head = s.substring_char(0, e);
    if e < n {
        (head, Some(s.substring_char(e + 1, n)))
    } else {
        (head, None)
    }
}

impl Position {
    /// Reads a position written `x,y`.
    fn parse(source: &str) -> (r: Result<Position, ParsingError>)
        ensures
            match r {
                Ok(p) => position_of(source@) == Ok::<Position, ParsingErrorView>(p),
                Err(e) => position_of(source@) == Err::<Position, ParsingErrorView>(e@),
            },
    {
        let (x_text, rest) = split_first(source, ',');
        let x = match parse_usize(x_text) {
            Some(x) => x,
            None => {
                return Err(ParsingError::invalid_number("Position::x", x_text));
            },
        };
        let rest = match rest {
            Some(rest) => rest,
            None => {
                return Err(ParsingError::missing("Position::y", source));
            },
        };
        let (y_text, _) = split_first(rest, ',');
        let y = match parse_usize(y_text) {
            Some(y) => y,
            None => {
                return Err(ParsingError::invalid_number("Position::y", y_text));
            },
        };
        Ok(Position { x, y })
    }
}

impl Request {
    /// Reads a request: `Start`, `DoTurn;x,y` or `Cancel`.
    pub fn parse(source: &str) -> (r: Result<Request, ParsingError>)
        ensures
            match r {
                Ok(q) => request_of(source@) == Ok::<Request, ParsingErrorView>(q),
                Err(e) => request_of(source@) == Err::<Request, ParsingErrorView>(e@),
            },
    {
        let (request_type, rest) = split_first(source, ';');
        if same_text(request_type, "Start") {
            Ok(Request::Start)
        } else if same_text(request_type, "DoTurn") {
            let rest = match rest {
                Some(rest) => rest,
                None => {
                    return Err(ParsingError::missing("Request::DoTurn::Position", source));
                },
            };
            let (details, _) = split_first(rest, ';');
            match Position::parse(details) {
                Ok(p) => Ok(Request::DoTurn(p)),
                Err(e) => Err(e),
            }
        } else if same_text(request_type, "Cancel") {
            Ok(Request::Cancel)
        } else {
            Err(ParsingError::unrecognized_request_type(request_type))
        }
    }
}

/// The decimal digit for `d` (below ten).
pub open spec fn digit_char(d: nat) -> char {
    if d == 0 {
        '0'
    } else if d == 1 {
        '1'
    } else if d == 2 {
        '2'
    } else if d == 3 {
        '3'
    } else if d == 4 {
        '4'
    } else if d == 5 {
        '5'
    } else if d == 6 {
        '6'
    } else if d == 7 {
        '7'
    } else if d == 8 {
        '8'
    } else {
        '9'
    }
}

/// `n` in decimal, without leading zeros.
pub open spec fn nat_text(n: nat) -> Seq<char>
    decreases n,
{
    if n < 10 {
        seq![digit_char(n)]
    } else {
        nat_text(n / 10) + seq![digit_char(n % 10)]
    }
}

/// A cell written `x.y`.
pub open spec fn cell_text(c: (int, int)) -> Seq<char> {
    nat_text(c.0 as nat) + "."@ + nat_text(c.1 as nat)
}

/// The RGB triple of a colour.
pub open spec fn color_text(c: Color) -> Seq<char> {
    match c {
        Color::White => "255.255.255"@,
        Color::Black => "0.0.0"@,
    }
}

/// The RGB triple of a tile; grey for an empty cell.
pub open spec fn tile_text(t: Tile) -> Seq<char> {
    match t.0 {
        Some(c) => color_text(c),
        None => "128.128.128"@,
    }
}

/// One changed cell written `x.y:r.g.b`.
pub open spec fn entry_text(e: ((int, int), Tile)) -> Seq<char> {
    cell_text(e.0) + ":"@ + tile_text(e.1)
}

/// The entries written one after the other, separated by `|`.
pub open spec fn entries_text(es: Seq<((int, int), Tile)>) -> Seq<char>
    decreases es.len(),
{
    if es.len() == 0 {
        Seq::empty()
    } else if es.len() == 1 {
        entry_text(es[0])
    } else {
        entries_text(es.drop_last()) + "|"@ + entry_text(es.last())
    }
}

/// A response as one line of text.
pub open spec fn response_text(r: ResponseView) -> Seq<char> {
    match r {
        ResponseView::Update(cs) => "Update;"@ + color_text(cs.player) + ","@ + entries_text(
            cs.tiles,
        ),
        ResponseView::Error(m) => "Error;"@ + m,
    }
}

fn digit_str(d: usize) -> (r: &'static str)
    requires
        d < 10,
    ensures
        r@ == seq![digit_char(d as nat)],
{
    proof {
        reveal_strlit("0");
        reveal_strlit("1");
        reveal_strlit("2");
        reveal_strlit("3");
        reveal_strlit("4");
        reveal_strlit("5");
        reveal_strlit("6");
        reveal_strlit("7");
        reveal_strlit("8");
        reveal_strlit("9");
    }
    let r = if d == 0 {
        "0"
    } else if d == 1 {
        "1"
    } else if d == 2 {
        "2"
    } else if d == 3 {
        "3"
    } else if d == 4 {
        "4"
    } else if d == 5 {
        "5"
    } else if d == 6 {
        "6"
    } else if d == 7 {
        "7"
    } else if d == 8 {
        "8"
    } else {
        "9"
    };
    assert(r@ =~= seq![digit_char(d as nat)]);
    r
}

/// Appends `n` in decimal to `out`.
fn append_number(out: &mut String, n: usize)
    ensures
        final(out)@ == old(out)@ + nat_text(n as nat),
    decreases n,
{
    if n >= 10 {
        append_number(out, n / 10);
    }
    out.append(digit_str(n % 10));
    assert(nat_text(n as nat) == if n < 10 {
        seq![digit_char(n as nat)]
    } else {
        nat_text((n / 10) as nat) + seq![digit_char((n % 10) as nat)]
    });
    assert(final(out)@ =~= old(out)@ + nat_text(n as nat)) by {
        if n < 10 {
            assert(n % 10 == n);
        }
    }
}

impl Position {
    /// The position written `x.y`.
    fn stringify(&self) -> (r: String)
        ensures
            r@ == cell_text(self.key()),
    {
        let mut r = String::new();
        append_number(&mut r, self.x);
        r.append(".");
        append_number(&mut r, self.y);
        assert(r@ =~= cell_text(self.key()));
        r
    }
}

impl Color {
    /// The colour's RGB triple.
    fn stringify(&self) -> (r: &'static str)
        ensures
            r@ == color_text(*self),
    {
        match self {
            Color::White => "255.255.255",
            Color::Black => "0.0.0",
        }
    }
}

impl Tile {
    /// The tile's RGB triple; grey for an empty cell.
    fn stringify(&self) -> (r: &'static str)
        ensures
            r@ == tile_text(*self),
    {
        match &self.0 {
            Some(color) => color.stringify(),
            None => "128.128.128",
        }
    }
}

impl Response {
    /// The response as one line of text: `Update;<player>,<entries>` with the
    /// entries `x.y:r.g.b` separated by `|`, or `Error;<message>`.
    pub fn stringify(&self) -> (r: String)
        ensures
            r@ == response_text(self@),
    {
        match self {
            Response::Update(change_set) => {
                let ghost es = change_set@.tiles;
                let mut tiles_raw = String::new();
                let mut i: usize = 0;
                assert(es.take(0) =~= Seq::<((int, int), Tile)>::empty());
                while i < change_set.tiles.len()
                    invariant
                        es == change_set@.tiles,
                        i <= es.len(),
                        tiles_raw@ == entries_text(es.take(i as int)),
                    decreases es.len() - i,
                {
                    let (pos, tile) = &change_set.tiles[i];
                    assert(es[i as int] == (pos.key(), *tile));
                    if i > 0 {
                        tiles_raw.append("|");
                    }
                    let cell = pos.stringify();
                    tiles_raw.append(cell.as_str());
                    tiles_raw.append(":");
                    tiles_raw.append(tile.stringify());
                    proof {
                        let next = es.take(i + 1);
                        assert(next.drop_last() =~= es.take(i as int));
                        assert(next.last() == es[i as int]);
                        if i == 0 {
                            assert(next[0] == es[0]);
                        }
                        assert(tiles_raw@ =~= entries_text(next));
                    }
                    i = i + 1;
                }
                assert(es.take(es.len() as int) =~= es);
                let mut r = "Update;".to_string();
                r.append(change_set.player.stringify());
                r.append(",");
                r.append(tiles_raw.as_str());
                r
            },
            Response::Error(details) => {
                let mut r = "Error;".to_string();
                r.append(details.as_str());
                r
            },
        }
    }
}

} // verus!
