//! Parser for `Host` blocks of an OpenSSH client configuration.
//!
//! A file is a sequence of blocks, each opened by `Host <alias>` on its own
//! line and followed by `Key value` pairs. Whitespace separates tokens and
//! `#` starts a comment that runs to the end of its line.
use vstd::prelude::*;
use crate::scan::{
    blank_end, digit_end, digits_value, is_digit, is_digit_char, lemma_blank_end_bounds,
    lemma_blank_end_idempotent, lemma_digit_end_bounds, lemma_digits_value_grows,
    lemma_word_end_bounds, lemma_ws_end_bounds, skip_blank, skip_word, skip_ws, slice_owned, spells,
    word_at, word_end, ws_end,
};

verus! {

/// The port used when a block names none.
pub fn default_port() -> (r: u16)
    ensures
        r == 22,
{
    22
}

#[derive(Debug, PartialEq, Eq)]
pub struct Host {
    pub host_name: String,
    pub user: String,
    pub identity_file: String,
    pub port: u16,
}

pub struct HostView {
    pub host_name: Seq<char>,
    pub user: Seq<char>,
    pub identity_file: Seq<char>,
    pub port: u16,
}

impl View for Host {
    type V = HostView;

    open spec fn view(&self) -> HostView {
        HostView {
            host_name: self.host_name@,
            user: self.user@,
            identity_file: self.identity_file@,
            port: self.port,
        }
    }
}

/// All blocks of a file, in the order in which they appear.
#[derive(Debug, PartialEq, Eq)]
pub struct Hosts(pub Vec<Host>);

impl View for Hosts {
    type V = Seq<HostView>;

    open spec fn view(&self) -> Seq<HostView> {
        self.0@.map_values(|h: Host| h@)
    }
}

/// The keywords that the parser knows.
#[derive(Debug, PartialEq, Eq, Structural, Clone, Copy)]
pub enum Identifier {
    Host,
    HostName,
    Port,
    User,
    IdentityFile,
}

#[derive(Debug)]
pub enum ParserError {
    TrailingCharacters,
    Eof,
    ExpectedInteger,
    UnexpectedToken,
    Message(String),
}

pub enum ErrorView {
    TrailingCharacters,
    Eof,
    ExpectedInteger,
    UnexpectedToken,
    Message(Seq<char>),
}

impl View for ParserError {
    type V = ErrorView;

    open spec fn view(&self) -> ErrorView {
        match self {
            ParserError::TrailingCharacters => ErrorView::TrailingCharacters,
            ParserError::Eof => ErrorView::Eof,
            ParserError::ExpectedInteger => ErrorView::ExpectedInteger,
            ParserError::UnexpectedToken => ErrorView::UnexpectedToken,
            ParserError::Message(m) => ErrorView::Message(m@),
        }
    }
}

impl ParserError {
    /// The text of the error.
    pub fn message(&self) -> (r: String)
        ensures
            r@ == match self {
                ParserError::TrailingCharacters => "TrailingCharacters"@,
                ParserError::Eof => "Eof"@,
                ParserError::ExpectedInteger => "ExpectedInteger"@,
                ParserError::UnexpectedToken => "UnexpectedToken"@,
                ParserError::Message(m) => m@,
            },
    {
        match self {
            ParserError::TrailingCharacters => "TrailingCharacters".to_owned(),
            ParserError::Eof => "Eof".to_owned(),
            ParserError::ExpectedInteger => "ExpectedInteger".to_owned(),
            ParserError::UnexpectedToken => "UnexpectedToken".to_owned(),
            ParserError::Message(m) => m.clone(),
        }
    }
}

/// The keyword that a word spells, if any.
pub open spec fn ident_of(w: Seq<char>) -> Option<Identifier> {
    if w == "Host"@ {
        Some(Identifier::Host)
    } else if w == "HostName"@ {
        Some(Identifier::HostName)
    } else if w == "Port"@ {
        Some(Identifier::Port)
    } else if w == "User"@ {
        Some(Identifier::User)
    } else if w == "IdentityFile"@ {
        Some(Identifier::IdentityFile)
    } else {
        None
    }
}

pub open spec fn missing_field(id: Identifier) -> Seq<char> {
    match id {
        Identifier::HostName => "missing field `HostName`"@,
        Identifier::User => "missing field `User`"@,
        Identifier::IdentityFile => "missing field `IdentityFile`"@,
        _ => "missing field `Port`"@,
    }
}

pub open spec fn duplicate_field(id: Identifier) -> Seq<char> {
    match id {
        Identifier::HostName => "duplicate field `HostName`"@,
        Identifier::User => "duplicate field `User`"@,
        Identifier::IdentityFile => "duplicate field `IdentityFile`"@,
        _ => "duplicate field `Port`"@,
    }
}

/// The error for a file that holds no block at all.
pub open spec fn no_hosts_message() -> Seq<char> {
    "invalid length 0, expected tuple struct Hosts with 1 element"@
}

/// The keys of one block read so far.
pub struct FieldsView {
    pub host_name: Option<Seq<char>>,
    pub user: Option<Seq<char>>,
    pub identity_file: Option<Seq<char>>,
    pub port: Option<u16>,
}

pub open spec fn no_fields() -> FieldsView {
    FieldsView { host_name: None, user: None, identity_file: None, port: None }
}

pub open spec fn string_field(f: FieldsView, id: Identifier) -> Option<Seq<char>> {
    match id {
        Identifier::HostName => f.host_name,
        Identifier::User => f.user,
        _ => f.identity_file,
    }
}

pub open spec fn with_string_field(f: FieldsView, id: Identifier, v: Seq<char>) -> FieldsView {
    match id {
        Identifier::HostName => FieldsView { host_name: Some(v), ..f },
        Identifier::User => FieldsView { user: Some(v), ..f },
        _ => FieldsView { identity_file: Some(v), ..f },
    }
}

/// A port number at `i`: one digit at least, and no more than `u16::MAX`.
pub open spec fn unsigned_at(s: Seq<char>, i: int) -> Result<(u16, int), ErrorView> {
    if i < 0 || i >= s.len() {
        Err(ErrorView::Eof)
    } else if !is_digit(s[i]) {
        Err(ErrorView::ExpectedInteger)
    } else if digits_value(s.subrange(i, digit_end(s, i))) > u16::MAX {
        Err(ErrorView::ExpectedInteger)
    } else {
        Ok((digits_value(s.subrange(i, digit_end(s, i))) as u16, digit_end(s, i)))
    }
}

/// The `Key value` lines of a block, from `i` up to the next `Host` keyword
/// or the end of the input. Unknown keys are skipped one word at a time.
pub open spec fn fields_from(s: Seq<char>, i: int, acc: FieldsView) -> Result<
    (FieldsView, int),
    ErrorView,
>
    decreases s.len() - i,
    via fields_from_decreases
{
    let p = blank_end(s, i);
    if i < 0 || p >= s.len() {
        Ok((acc, p))
    } else {
        let q = word_end(s, p);
        match ident_of(s.subrange(p, q)) {
            Some(Identifier::Host) => Ok((acc, p)),
            Some(Identifier::Port) => {
                if acc.port is Some {
                    Err(ErrorView::Message(duplicate_field(Identifier::Port)))
                } else {
                    match unsigned_at(s, blank_end(s, q)) {
                        Err(e) => Err(e),
                        Ok((n, e)) => fields_from(s, e, FieldsView { port: Some(n), ..acc }),
                    }
                }
            },
            Some(id) => {
                if string_field(acc, id) is Some {
                    Err(ErrorView::Message(duplicate_field(id)))
                } else {
                    let v = blank_end(s, q);
                    fields_from(s, word_end(s, v), with_string_field(acc, id, word_at(s, v)))
                }
            },
            None => fields_from(s, blank_end(s, q), acc),
        }
    }
}

#[via_fn]
proof fn fields_from_decreases(s: Seq<char>, i: int, acc: FieldsView) {
    if 0 <= i <= s.len() {
        lemma_blank_end_bounds(s, i);
        let p = blank_end(s, i);
        if p < s.len() {
            lemma_word_end_bounds(s, p);
            let q = word_end(s, p);
            lemma_blank_end_bounds(s, q);
            let v = blank_end(s, q);
            lemma_word_end_bounds(s, v);
            lemma_digit_end_bounds(s, v);
        }
    }
}

/// What a finished block gives: the three names are required, the port
/// falls back to 22.
pub open spec fn finish_fields(f: FieldsView) -> Result<HostView, ErrorView> {
    if f.host_name is None {
        Err(ErrorView::Message(missing_field(Identifier::HostName)))
    } else if f.user is None {
        Err(ErrorView::Message(missing_field(Identifier::User)))
    } else if f.identity_file is None {
        Err(ErrorView::Message(missing_field(Identifier::IdentityFile)))
    } else {
        Ok(
            HostView {
                host_name: f.host_name->Some_0,
                user: f.user->Some_0,
                identity_file: f.identity_file->Some_0,
                port: if f.port is Some {
                    f.port->Some_0
                } else {
                    22
                },
            },
        )
    }
}

/// One block at `i`: `Host`, one separator, the alias, one separator, then
/// its keys. Gives the block and the position after it.
pub open spec fn host_at(s: Seq<char>, i: int) -> Result<(HostView, int), ErrorView> {
    let i1 = ws_end(s, i);
    if ident_of(word_at(s, i1)) != Some(Identifier::Host) {
        Err(ErrorView::UnexpectedToken)
    } else {
        let a = word_end(s, i1);
        if a >= s.len() {
            Err(ErrorView::Eof)
        } else {
            let b = word_end(s, blank_end(s, a + 1));
            if b >= s.len() {
                Err(ErrorView::Eof)
            } else {
                host_body(s, b + 1)
            }
        }
    }
}

/// The keys of a block from `i` on, checked for the required ones.
pub open spec fn host_body(s: Seq<char>, i: int) -> Result<(HostView, int), ErrorView> {
    match fields_from(s, i, no_fields()) {
        Err(e) => Err(e),
        Ok((f, e)) => match finish_fields(f) {
            Err(m) => Err(m),
            Ok(h) => Ok((h, e)),
        },
    }
}

pub open spec fn opt_view(o: Option<String>) -> Option<Seq<char>> {
    match o {
        Some(s) => Some(s@),
        None => None,
    }
}

/// The blocks from `i` to the end of the input, appended to `acc`.
pub open spec fn host_list(s: Seq<char>, i: int, acc: Seq<HostView>) -> Result<
    (Seq<HostView>, int),
    ErrorView,
>
    decreases s.len() - i,
    via host_list_decreases
{
    let p = blank_end(s, i);
    if i < 0 || p >= s.len() {
        Ok((acc, p))
    } else if ident_of(word_at(s, p)) != Some(Identifier::Host) {
        Err(ErrorView::UnexpectedToken)
    } else {
        match host_at(s, p) {
            Err(e) => Err(e),
            Ok((h, e)) => host_list(s, e, acc.push(h)),
        }
    }
}

#[via_fn]
proof fn host_list_decreases(s: Seq<char>, i: int, acc: Seq<HostView>) {
    if 0 <= i <= s.len() {
        lemma_blank_end_bounds(s, i);
        let p = blank_end(s, i);
        if p < s.len() {
            lemma_host_at_progress(s, p);
        }
    }
}

/// A whole file at `i`: at least one block, then blocks up to the end.
pub open spec fn hosts_at(s: Seq<char>, i: int) -> Result<(Seq<HostView>, int), ErrorView> {
    let p = blank_end(s, i);
    if p >= s.len() {
        Err(ErrorView::Message(no_hosts_message()))
    } else if ident_of(word_at(s, p)) != Some(Identifier::Host) {
        Err(ErrorView::UnexpectedToken)
    } else {
        host_list(s, p, Seq::empty())
    }
}

/// A value parsed from the start of `s`, with nothing but whitespace after it.
pub open spec fn whole<V>(r: Result<(V, int), ErrorView>, s: Seq<char>) -> Result<V, ErrorView> {
    match r {
        Err(e) => Err(e),
        Ok((v, e)) => if ws_end(s, e) >= s.len() {
            Ok(v)
        } else {
            Err(ErrorView::TrailingCharacters)
        },
    }
}

/// `r` is the value or the error that `spec` describes.
pub open spec fn result_is<T: View>(r: Result<T, ParserError>, spec: Result<T::V, ErrorView>) -> bool {
    match spec {
        Ok(v) => r is Ok && r->Ok_0@ == v,
        Err(e) => r is Err && r->Err_0@ == e,
    }
}

/// `r` is what `spec` describes, and `end` the position after it.
pub open spec fn parsed_as<T: View>(
    r: Result<T, ParserError>,
    end: int,
    spec: Result<(T::V, int), ErrorView>,
) -> bool {
    match spec {
        Ok((v, e)) => r is Ok && r->Ok_0@ == v && end == e,
        Err(e) => r is Err && r->Err_0@ == e,
    }
}

proof fn lemma_fields_from_progress(s: Seq<char>, i: int, acc: FieldsView)
    requires
        0 <= i <= s.len(),
    ensures
        fields_from(s, i, acc) matches Ok((f, e)) ==> i <= e <= s.len(),
    decreases s.len() - i,
{
    lemma_blank_end_bounds(s, i);
    let p = blank_end(s, i);
    if p < s.len() {
        lemma_word_end_bounds(s, p);
        let q = word_end(s, p);
        lemma_blank_end_bounds(s, q);
        let v = blank_end(s, q);
        lemma_word_end_bounds(s, v);
        lemma_digit_end_bounds(s, v);
        match ident_of(s.subrange(p, q)) {
            Some(Identifier::Host) => {},
            Some(Identifier::Port) => {
                if acc.port is None {
                    if let Ok((n, e)) = unsigned_at(s, v) {
                        lemma_fields_from_progress(s, e, FieldsView { port: Some(n), ..acc });
                    }
                }
            },
            Some(id) => {
                if string_field(acc, id) is None {
                    lemma_fields_from_progress(
                        s,
                        word_end(s, v),
                        with_string_field(acc, id, word_at(s, v)),
                    );
                }
            },
            None => {
                lemma_fields_from_progress(s, v, acc);
            },
        }
    }
}

proof fn lemma_host_at_progress(s: Seq<char>, i: int)
    requires
        0 <= i <= s.len(),
    ensures
        host_at(s, i) matches Ok((h, e)) ==> i < e <= s.len(),
{
    lemma_ws_end_bounds(s, i);
    let i1 = ws_end(s, i);
    lemma_word_end_bounds(s, i1);
    let a = word_end(s, i1);
    if a < s.len() {
        lemma_blank_end_bounds(s, a + 1);
        lemma_word_end_bounds(s, blank_end(s, a + 1));
        let b = word_end(s, blank_end(s, a + 1));
        if b < s.len() {
            lemma_fields_from_progress(s, b + 1, no_fields());
        }
    }
}

/// `r` is the keyword that `w` spells, or `UnexpectedToken`.
pub open spec fn keyword_result(r: Result<Identifier, ParserError>, w: Seq<char>) -> bool {
    match ident_of(w) {
        Some(id) => r == Ok::<Identifier, ParserError>(id),
        None => r is Err && r->Err_0 is UnexpectedToken,
    }
}

/// The keyword that the characters `s[from..to]` spell.
pub fn keyword_in(s: &str, from: usize, to: usize) -> (r: Result<Identifier, ParserError>)
    requires
        from <= to <= s@.len(),
    ensures
        keyword_result(r, s@.subrange(from as int, to as int)),
{
    if spells(s, from, to, "Host") {
        Ok(Identifier::Host)
    } else if spells(s, from, to, "HostName") {
        Ok(Identifier::HostName)
    } else if spells(s, from, to, "Port") {
        Ok(Identifier::Port)
    } else if spells(s, from, to, "User") {
        Ok(Identifier::User)
    } else if spells(s, from, to, "IdentityFile") {
        Ok(Identifier::IdentityFile)
    } else {
        Err(ParserError::UnexpectedToken)
    }
}

/// A parser over the characters of one input string.
pub struct Deserializer<'de> {
    input: &'de str,
    len: usize,
    pos: usize,
}

impl<'de> Deserializer<'de> {
    pub closed spec fn text(&self) -> Seq<char> {
        self.input@
    }

    pub closed spec fn position(&self) -> int {
        self.pos as int
    }

    pub closed spec fn wf(&self) -> bool {
        &&& self.len == self.input@.len()
        &&& self.pos <= self.len
    }

    pub fn from_str(input: &'de str) -> (r: Self)
        ensures
            r.wf(),
            r.text() == input@,
            r.position() == 0,
    {
        Deserializer { input, len: input.unicode_len(), pos: 0 }
    }

    fn peek_char(&self) -> (r: Result<char, ParserError>)
        requires
            self.wf(),
        ensures
            self.pos < self.input@.len() ==> r == Ok::<char, ParserError>(self.input@[self.pos as int]),
            self.pos >= self.input@.len() ==> r is Err && r->Err_0 is Eof,
    {
        if self.pos < self.len {
            Ok(self.input.get_char(self.pos))
        } else {
            Err(ParserError::Eof)
        }
    }

    /// Consumes one character.
    fn advance(&mut self) -> (r: Result<char, ParserError>)
        requires
            old(self).wf(),
        ensures
            final(self).wf(),
            final(self).input == old(self).input,
            old(self).pos < old(self).input@.len() ==> r == Ok::<char, ParserError>(
                old(self).input@[old(self).pos as int],
            ) && final(self).pos == old(self).pos + 1,
            old(self).pos >= old(self).input@.len() ==> r is Err && r->Err_0 is Eof,
    {
        let ch = self.peek_char();
        if ch.is_ok() {
            self.pos = self.pos + 1;
        }
        ch
    }

    fn skip_whitespace(&mut self)
        requires
            old(self).wf(),
        ensures
            final(self).wf(),
            final(self).input == old(self).input,
            final(self).pos == blank_end(old(self).input@, old(self).pos as int),
    {
        proof {
            lemma_blank_end_bounds(self.input@, self.pos as int);
        }
        self.pos = skip_blank(self.input, self.pos);
    }

    /// The keyword that the word at `from..to` spells.
    fn identifier(&self, from: usize, to: usize) -> (r: Result<Identifier, ParserError>)
        requires
            from <= to <= self.input@.len(),
        ensures
            keyword_result(r, self.input@.subrange(from as int, to as int)),
    {
        keyword_in(self.input, from, to)
    }

    /// The keyword after the next whitespace, without consuming anything.
    fn peek_identifier(&self) -> (r: Result<Identifier, ParserError>)
        requires
            self.wf(),
        ensures
            match ident_of(word_at(self.input@, ws_end(self.input@, self.pos as int))) {
                Some(id) => r == Ok::<Identifier, ParserError>(id),
                None => r is Err && r->Err_0 is UnexpectedToken,
            },
    {
        let start = skip_ws(self.input, self.pos);
        proof {
            lemma_ws_end_bounds(self.input@, self.pos as int);
        }
        let end = skip_word(self.input, start);
        proof {
            lemma_word_end_bounds(self.input@, start as int);
        }
        self.identifier(start, end)
    }

    /// The next word.
    fn parse_string(&mut self) -> (r: String)
        requires
            old(self).wf(),
        ensures
            final(self).wf(),
            final(self).input == old(self).input,
            r@ == word_at(old(self).input@, blank_end(old(self).input@, old(self).pos as int)),
            final(self).pos == word_end(
                old(self).input@,
                blank_end(old(self).input@, old(self).pos as int),
            ),
    {
        self.skip_whitespace();
        proof {
            lemma_blank_end_bounds(self.input@, old(self).pos as int);
        }
        let start = self.pos;
        let end = skip_word(self.input, start);
        proof {
            lemma_word_end_bounds(self.input@, start as int);
        }
        self.pos = end;
        slice_owned(self.input, start, end)
    }

    /// The next word, read as a keyword.
    fn parse_identifier(&mut self) -> (r: Result<Identifier, ParserError>)
        requires
            old(self).wf(),
        ensures
            final(self).wf(),
            final(self).input == old(self).input,
            ({
                let p = blank_end(old(self).input@, old(self).pos as int);
                &&& final(self).pos == word_end(old(self).input@, p)
                &&& match ident_of(word_at(old(self).input@, p)) {
                    Some(id) => r == Ok::<Identifier, ParserError>(id),
                    None => r is Err && r->Err_0 is UnexpectedToken,
                }
            }),
    {
        self.skip_whitespace();
        proof {
            lemma_blank_end_bounds(self.input@, old(self).pos as int);
        }
        let start = self.pos;
        let end = skip_word(self.input, start);
        proof {
            lemma_word_end_bounds(self.input@, start as int);
        }
        self.pos = end;
        self.identifier(start, end)
    }

    /// A decimal number that fits in `u16`.
    fn parse_unsigned(&mut self) -> (r: Result<u16, ParserError>)
        requires
            old(self).wf(),
        ensures
            final(self).wf(),
            final(self).input == old(self).input,
            parsed_as(
                r,
                final(self).pos as int,
                unsigned_at(old(self).input@, blank_end(old(self).input@, old(self).pos as int)),
            ),
            ({
                let p = blank_end(old(self).input@, old(self).pos as int);
                p < old(self).input@.len() && !is_digit(old(self).input@[p]) ==> final(self).pos
                    == p + 1
            }),
    {
        self.skip_whitespace();
        proof {
            lemma_blank_end_bounds(self.input@, old(self).pos as int);
        }
        let start = self.pos;
        let first = self.advance();
        let c = match first {
            Ok(c) => c,
            Err(e) => {
                return Err(e);
            },
        };
        if !('0' <= c && c <= '9') {
            return Err(ParserError::ExpectedInteger);
        }
        let ghost s = self.input@;
        let len = self.len;
        let mut value: u16 = (c as u32 - '0' as u32) as u16;
        proof {
            assert(s.subrange(start as int, start + 1).drop_last() =~= Seq::<char>::empty());
            assert(digits_value(Seq::<char>::empty()) == 0);
            assert(s.subrange(start as int, start + 1).last() == c);
            assert(digits_value(s.subrange(start as int, start + 1)) == value as nat);
        }
        while self.pos < len && is_digit_char(self.input.get_char(self.pos))
            invariant
                self.wf(),
                self.input == old(self).input,
                self.input@ == s,
                len == s.len(),
                start < self.pos <= len,
                start < s.len(),
                start == blank_end(s, old(self).pos as int),
                is_digit(s[start as int]),
                digit_end(s, self.pos as int) == digit_end(s, start as int),
                value as nat == digits_value(s.subrange(start as int, self.pos as int)),
            decreases len - self.pos,
        {
            let d = self.input.get_char(self.pos);
            let next = self.pos + 1;
            proof {
                assert(s.subrange(start as int, next as int).drop_last() =~= s.subrange(
                    start as int,
                    self.pos as int,
                ));
                lemma_digit_end_bounds(s, next as int);
            }
            let digit = (d as u32 - '0' as u32) as u16;
            proof {
                assert(s.subrange(start as int, next as int).last() == d);
                assert(digits_value(s.subrange(start as int, next as int)) == value as nat * 10
                    + digit as nat);
            }
            if value > 6553 || (value == 6553 && digit > 5) {
                proof {
                    assert(digit_end(s, self.pos as int) == digit_end(s, next as int));
                    lemma_digits_value_grows(s, start as int, next as int, digit_end(s, start as int));
                    assert(digits_value(s.subrange(start as int, digit_end(s, start as int)))
                        > u16::MAX);
                }
                return Err(ParserError::ExpectedInteger);
            }
            value = value * 10 + digit;
            self.pos = next;
        }
        Ok(value)
    }
}

impl<'de> Deserializer<'de> {
    /// The keys of one block, up to the next `Host` keyword or the end of
    /// the input.
    fn host_fields(&mut self) -> (r: Result<Host, ParserError>)
        requires
            old(self).wf(),
        ensures
            final(self).wf(),
            final(self).input == old(self).input,
            parsed_as(r, final(self).pos as int, host_body(old(self).input@, old(self).pos as int)),
    {
        let ghost s = self.input@;
        let ghost start = self.pos as int;
        let mut host_name: Option<String> = None;
        let mut user: Option<String> = None;
        let mut identity_file: Option<String> = None;
        let mut port: Option<u16> = None;
        loop
            invariant
                self.wf(),
                self.input == old(self).input,
                self.input@ == s,
                start == old(self).pos,
                fields_from(
                    s,
                    self.pos as int,
                    FieldsView {
                        host_name: opt_view(host_name),
                        user: opt_view(user),
                        identity_file: opt_view(identity_file),
                        port: port,
                    },
                ) == fields_from(s, start, no_fields()),
            ensures
                self.wf(),
                self.input == old(self).input,
                fields_from(s, start, no_fields()) == Ok::<(FieldsView, int), ErrorView>(
                    (
                        FieldsView {
                            host_name: opt_view(host_name),
                            user: opt_view(user),
                            identity_file: opt_view(identity_file),
                            port: port,
                        },
                        self.pos as int,
                    ),
                ),
            decreases self.len - self.pos,
        {
            let ghost before = self.pos as int;
            let ghost acc = FieldsView {
                host_name: opt_view(host_name),
                user: opt_view(user),
                identity_file: opt_view(identity_file),
                port: port,
            };
            self.skip_whitespace();
            proof {
                lemma_blank_end_bounds(s, before);
            }
            if self.pos >= self.len {
                break;
            }
            let p = self.pos;
            proof {
                lemma_word_end_bounds(s, p as int);
            }
            if let Ok(Identifier::Host) = self.peek_identifier() {
                break;
            }
            let key = self.parse_identifier();
            let q = self.pos;
            proof {
                lemma_blank_end_idempotent(s, before);
                lemma_blank_end_bounds(s, q as int);
                lemma_blank_end_idempotent(s, q as int);
            }
            match key {
                Ok(Identifier::Port) => {
                    if port.is_some() {
                        return Err(ParserError::Message("duplicate field `Port`".to_owned()));
                    }
                    self.skip_whitespace();
                    match self.parse_unsigned() {
                        Ok(n) => {
                            port = Some(n);
                        },
                        Err(e) => {
                            return Err(e);
                        },
                    }
                    proof {
                        lemma_digit_end_bounds(s, blank_end(s, q as int));
                    }
                },
                Ok(Identifier::HostName) => {
                    if host_name.is_some() {
                        return Err(ParserError::Message("duplicate field `HostName`".to_owned()));
                    }
                    self.skip_whitespace();
                    proof {
                        lemma_word_end_bounds(s, blank_end(s, q as int));
                    }
                    host_name = Some(self.parse_string());
                },
                Ok(Identifier::User) => {
                    if user.is_some() {
                        return Err(ParserError::Message("duplicate field `User`".to_owned()));
                    }
                    self.skip_whitespace();
                    proof {
                        lemma_word_end_bounds(s, blank_end(s, q as int));
                    }
                    user = Some(self.parse_string());
                },
                Ok(Identifier::IdentityFile) => {
                    if identity_file.is_some() {
                        return Err(
                            ParserError::Message("duplicate field `IdentityFile`".to_owned()),
                        );
                    }
                    self.skip_whitespace();
                    proof {
                        lemma_word_end_bounds(s, blank_end(s, q as int));
                    }
                    identity_file = Some(self.parse_string());
                },
                _ => {
                    // an unknown key: its value is left for the next round
                    self.skip_whitespace();
                },
            }
            assert(self.pos > before);
        }
        let host_name = match host_name {
            Some(v) => v,
            None => {
                return Err(ParserError::Message("missing field `HostName`".to_owned()));
            },
        };
        let user = match user {
            Some(v) => v,
            None => {
                return Err(ParserError::Message("missing field `User`".to_owned()));
            },
        };
        let identity_file = match identity_file {
            Some(v) => v,
            None => {
                return Err(ParserError::Message("missing field `IdentityFile`".to_owned()));
            },
        };
        let port = match port {
            Some(n) => n,
            None => default_port(),
        };
        Ok(Host { host_name, user, identity_file, port })
    }

    /// One `Host` block.
    fn deserialize_struct(&mut self) -> (r: Result<Host, ParserError>)
        requires
            old(self).wf(),
        ensures
            final(self).wf(),
            final(self).input == old(self).input,
            parsed_as(r, final(self).pos as int, host_at(old(self).input@, old(self).pos as int)),
    {
        let ghost s = self.input@;
        proof {
            lemma_ws_end_bounds(s, self.pos as int);
        }
        self.pos = skip_ws(self.input, self.pos);
        let i1 = self.pos;
        match self.peek_identifier() {
            Ok(Identifier::Host) => {},
            Ok(_) => {
                return Err(ParserError::UnexpectedToken);
            },
            Err(e) => {
                return Err(e);
            },
        }
        proof {
            reveal_strlit("Host");
            lemma_word_end_bounds(s, i1 as int);
            assert(word_at(s, i1 as int).len() == 4);
            assert(word_end(s, i1 as int) == i1 + 4);
            assert(word_at(s, i1 as int)[0] == 'H');
            assert(s[i1 as int] == 'H');
        }
        let _ = self.parse_identifier();
        if let Err(e) = self.advance() {
            return Err(e);
        }
        let _alias = self.parse_string();
        if let Err(e) = self.advance() {
            return Err(e);
        }
        self.host_fields()
    }

    /// `Host` blocks up to the end of the input.
    fn deserialize_seq(&mut self) -> (r: Result<Hosts, ParserError>)
        requires
            old(self).wf(),
        ensures
            final(self).wf(),
            final(self).input == old(self).input,
            parsed_as(
                r,
                final(self).pos as int,
                host_list(old(self).input@, old(self).pos as int, Seq::empty()),
            ),
    {
        let ghost s = self.input@;
        let ghost start = self.pos as int;
        let mut hosts: Vec<Host> = Vec::new();
        proof {
            assert(hosts@.map_values(|h: Host| h@) =~= Seq::<HostView>::empty());
        }
        loop
            invariant
                self.wf(),
                self.input == old(self).input,
                self.input@ == s,
                start == old(self).pos,
                host_list(s, self.pos as int, hosts@.map_values(|h: Host| h@)) == host_list(
                    s,
                    start,
                    Seq::empty(),
                ),
            decreases self.len - self.pos,
        {
            let ghost before = self.pos as int;
            self.skip_whitespace();
            proof {
                lemma_blank_end_bounds(s, before);
            }
            if self.pos >= self.len {
                return Ok(Hosts(hosts));
            }
            match self.peek_identifier() {
                Ok(Identifier::Host) => {},
                Ok(_) => {
                    return Err(ParserError::UnexpectedToken);
                },
                Err(e) => {
                    return Err(e);
                },
            }
            proof {
                lemma_ws_end_bounds(s, self.pos as int);
                lemma_host_at_progress(s, self.pos as int);
            }
            let ghost old_hosts = hosts@;
            match self.deserialize_struct() {
                Ok(h) => {
                    hosts.push(h);
                    proof {
                        assert(hosts@.map_values(|h: Host| h@) =~= old_hosts.map_values(
                            |h: Host| h@,
                        ).push(h@));
                    }
                },
                Err(e) => {
                    return Err(e);
                },
            }
        }
    }

    /// A whole file: at least one `Host` block.
    fn deserialize_newtype_struct(&mut self) -> (r: Result<Hosts, ParserError>)
        requires
            old(self).wf(),
        ensures
            final(self).wf(),
            final(self).input == old(self).input,
            parsed_as(r, final(self).pos as int, hosts_at(old(self).input@, old(self).pos as int)),
    {
        let ghost s = self.input@;
        self.skip_whitespace();
        proof {
            lemma_blank_end_bounds(s, old(self).pos as int);
        }
        if self.pos >= self.len {
            return Err(
                ParserError::Message(
                    "invalid length 0, expected tuple struct Hosts with 1 element".to_owned(),
                ),
            );
        }
        match self.peek_identifier() {
            Ok(Identifier::Host) => {},
            Ok(_) => {
                return Err(ParserError::UnexpectedToken);
            },
            Err(e) => {
                return Err(e);
            },
        }
        proof {
            lemma_blank_end_idempotent(s, old(self).pos as int);
        }
        self.deserialize_seq()
    }
}

/// A value that can be read from configuration text.
pub trait FromConfig: Sized + View {
    /// What reading from position `i` of `s` gives, with the position after it.
    spec fn parse_spec(s: Seq<char>, i: int) -> Result<(Self::V, int), ErrorView>;

    fn deserialize(de: &mut Deserializer<'_>) -> (r: Result<Self, ParserError>)
        requires
            old(de).wf(),
        ensures
            final(de).wf(),
            final(de).text() == old(de).text(),
            parsed_as(r, final(de).position(), Self::parse_spec(old(de).text(), old(de).position())),
    ;
}

impl FromConfig for Host {
    open spec fn parse_spec(s: Seq<char>, i: int) -> Result<(HostView, int), ErrorView> {
        host_at(s, i)
    }

    fn deserialize(de: &mut Deserializer<'_>) -> (r: Result<Host, ParserError>) {
        de.deserialize_struct()
    }
}

impl FromConfig for Hosts {
    open spec fn parse_spec(s: Seq<char>, i: int) -> Result<(Seq<HostView>, int), ErrorView> {
        hosts_at(s, i)
    }

    fn deserialize(de: &mut Deserializer<'_>) -> (r: Result<Hosts, ParserError>) {
        de.deserialize_newtype_struct()
    }
}

/// Reads a `T` from the whole of `s`; only whitespace may follow it.
pub fn from_str<T: FromConfig>(s: &str) -> (r: Result<T, ParserError>)
    ensures
        result_is(r, whole(T::parse_spec(s@, 0), s@)),
{
    let mut de = Deserializer::from_str(s);
    let t = match T::deserialize(&mut de) {
        Ok(t) => t,
        Err(e) => {
            return Err(e);
        },
    };
    if de.pos >= de.len {
        Ok(t)
    } else if skip_ws(s, de.pos) >= de.len {
        Ok(t)
    } else {
        Err(ParserError::TrailingCharacters)
    }
}

} // verus!
