//! The strict form of a `Host` block: keys start at the beginning of a line
//! (after indentation), one space or tab separates a key from its value, and
//! every key, `Port` included, is required.
use vstd::prelude::*;
use crate::scan::{
    digit_end, digits_value, is_digit, is_digit_char, lemma_digit_end_bounds,
    lemma_digits_value_grows, lemma_word_end_bounds, lemma_ws_end_bounds, skip_word, skip_ws,
    slice_owned, word_at, word_end, ws_end,
};
pub use crate::ssh_config::de::{
    keyword_in, keyword_result, duplicate_field, ident_of, missing_field, no_fields, opt_view, parsed_as, result_is,
    string_field, unsigned_at, with_string_field, ErrorView, FieldsView, HostView, Identifier,
    ParserError,
};

verus! {

#[derive(Debug, PartialEq, Eq)]
pub struct Host {
    pub host_name: String,
    pub user: String,
    pub identity_file: String,
    pub port: u16,
}

impl View for Host {
    type V = HostView;

    open spec fn view(&self) -> HostView {
        HostView {
            host_name: self.host_name@,
            user: self.user@,
            identity_file: self.identity_file@,
            port: self.port,
        }
    }
}

#[derive(Debug, PartialEq, Eq)]
pub struct Hosts {
    pub hosts: Vec<Host>,
}

/// `' '` or `'\t'`, the separator between a key and its value.
pub open spec fn is_blank(c: char) -> bool {
    c == ' ' || c == '\t'
}

/// The lines of a block from `i`. Each line but the first opens with a
/// newline; indentation is skipped, then a key, one blank and its value.
/// Unknown keys are skipped, their values left to be read as keys.
pub open spec fn strict_fields_from(s: Seq<char>, i: int, first: bool, acc: FieldsView) -> Result<
    (FieldsView, int),
    ErrorView,
>
    decreases s.len() - i,
    via strict_fields_from_decreases
{
    if i < 0 || i >= s.len() {
        Ok((acc, i))
    } else if !first && s[i] != '\n' {
        Err(ErrorView::UnexpectedToken)
    } else {
        let k = ws_end(s, i + 1);
        let q = word_end(s, k);
        let id = ident_of(s.subrange(k, q));
        if id == Some(Identifier::Port) && acc.port is Some {
            Err(ErrorView::Message(duplicate_field(Identifier::Port)))
        } else if id is Some && id != Some(Identifier::Host) && id != Some(Identifier::Port)
            && string_field(acc, id->Some_0) is Some {
            Err(ErrorView::Message(duplicate_field(id->Some_0)))
        } else if q >= s.len() {
            Err(ErrorView::Eof)
        } else if !is_blank(s[q]) {
            Err(ErrorView::UnexpectedToken)
        } else if id == Some(Identifier::Port) {
            match unsigned_at(s, q + 1) {
                Err(e) => Err(e),
                Ok((n, e)) => strict_fields_from(s, e, false, FieldsView { port: Some(n), ..acc }),
            }
        } else if id is Some && id != Some(Identifier::Host) {
            strict_fields_from(
                s,
                word_end(s, q + 1),
                false,
                with_string_field(acc, id->Some_0, word_at(s, q + 1)),
            )
        } else {
            strict_fields_from(s, q + 1, false, acc)
        }
    }
}

#[via_fn]
proof fn strict_fields_from_decreases(s: Seq<char>, i: int, first: bool, acc: FieldsView) {
    if 0 <= i < s.len() {
        lemma_ws_end_bounds(s, i + 1);
        let k = ws_end(s, i + 1);
        lemma_word_end_bounds(s, k);
        let q = word_end(s, k);
        if q < s.len() {
            lemma_word_end_bounds(s, q + 1);
            lemma_digit_end_bounds(s, q + 1);
        }
    }
}

/// A finished block: all four keys are required.
pub open spec fn strict_finish(f: FieldsView) -> Result<HostView, ErrorView> {
    if f.host_name is None {
        Err(ErrorView::Message(missing_field(Identifier::HostName)))
    } else if f.user is None {
        Err(ErrorView::Message(missing_field(Identifier::User)))
    } else if f.identity_file is None {
        Err(ErrorView::Message(missing_field(Identifier::IdentityFile)))
    } else if f.port is None {
        Err(ErrorView::Message(missing_field(Identifier::Port)))
    } else {
        Ok(
            HostView {
                host_name: f.host_name->Some_0,
                user: f.user->Some_0,
                identity_file: f.identity_file->Some_0,
                port: f.port->Some_0,
            },
        )
    }
}

/// One block at `i`: `Host`, one character, the alias, one character, then
/// its lines.
pub open spec fn strict_host_at(s: Seq<char>, i: int) -> Result<(HostView, int), ErrorView> {
    let i1 = ws_end(s, i);
    if ident_of(word_at(s, i1)) != Some(Identifier::Host) {
        Err(ErrorView::UnexpectedToken)
    } else {
        let a = word_end(s, i1);
        if a >= s.len() {
            Err(ErrorView::Eof)
        } else {
            let b = word_end(s, a + 1);
            if b >= s.len() {
                Err(ErrorView::Eof)
            } else {
                strict_body(s, b + 1)
            }
        }
    }
}

/// A value read from the start of `s`, with nothing at all after it.
pub open spec fn exact<V>(r: Result<(V, int), ErrorView>, s: Seq<char>) -> Result<V, ErrorView> {
    match r {
        Err(e) => Err(e),
        Ok((v, e)) => if e >= s.len() {
            Ok(v)
        } else {
            Err(ErrorView::TrailingCharacters)
        },
    }
}

/// The lines of a block from `i`, checked for the required keys.
pub open spec fn strict_body(s: Seq<char>, i: int) -> Result<(HostView, int), ErrorView> {
    match strict_fields_from(s, i, true, no_fields()) {
        Err(e) => Err(e),
        Ok((f, e)) => match strict_finish(f) {
            Err(m) => Err(m),
            Ok(h) => Ok((h, e)),
        },
    }
}

/// A parser over the characters of one input string.
pub struct Deserializer<'de> {
    input: &'de str,
    len: usize,
    pos: usize,
}

impl<'de> Deserializer<'de> {
    pub closed spec fn wf(&self) -> bool {
        &&& self.len == self.input@.len()
        &&& self.pos <= self.len
    }

    pub closed spec fn text(&self) -> Seq<char> {
        self.input@
    }

    pub closed spec fn position(&self) -> int {
        self.pos as int
    }

    pub fn from_str(input: &'de str) -> (r: Self)
        ensures
            r.wf(),
            r.text() == input@,
            r.position() == 0,
    {
        Deserializer { input, len: input.unicode_len(), pos: 0 }
    }

    /// Consumes one character.
    fn advance(&mut self) -> (r: Result<char, ParserError>)
        requires
            old(self).wf(),
        ensures
            final(self).wf(),
            final(self).input == old(self).input,
            old(self).pos < old(self).len ==> r == Ok::<char, ParserError>(
                old(self).input@[old(self).pos as int],
            ) && final(self).pos == old(self).pos + 1,
            old(self).pos >= old(self).len ==> r is Err && r->Err_0 is Eof,
    {
        if self.pos < self.len {
            let ch = self.input.get_char(self.pos);
            self.pos = self.pos + 1;
            Ok(ch)
        } else {
            Err(ParserError::Eof)
        }
    }

    /// The word at the current position, with no whitespace skipped.
    fn parse_string(&mut self) -> (r: String)
        requires
            old(self).wf(),
        ensures
            final(self).wf(),
            final(self).input == old(self).input,
            r@ == word_at(old(self).input@, old(self).pos as int),
            final(self).pos == word_end(old(self).input@, old(self).pos as int),
    {
        let start = self.pos;
        let end = skip_word(self.input, start);
        proof {
            lemma_word_end_bounds(self.input@, start as int);
        }
        self.pos = end;
        slice_owned(self.input, start, end)
    }

    /// A decimal number that fits in `u16`, at the current position.
    fn parse_unsigned(&mut self) -> (r: Result<u16, ParserError>)
        requires
            old(self).wf(),
        ensures
            final(self).wf(),
            final(self).input == old(self).input,
            parsed_as(r, final(self).pos as int, unsigned_at(old(self).input@, old(self).pos as int)),
            old(self).pos < old(self).input@.len() && !is_digit(old(self).input@[old(self).pos as int])
                ==> final(self).pos == old(self).pos + 1,
    {
        let ghost s = self.input@;
        let start = self.pos;
        let c = match self.advance() {
            Ok(c) => c,
            Err(e) => {
                return Err(e);
            },
        };
        if !('0' <= c && c <= '9') {
            return Err(ParserError::ExpectedInteger);
        }
        let mut value: u16 = (c as u32 - '0' as u32) as u16;
        proof {
            assert(s.subrange(start as int, start + 1).drop_last() =~= Seq::<char>::empty());
            assert(digits_value(Seq::<char>::empty()) == 0);
            assert(s.subrange(start as int, start + 1).last() == c);
            assert(digits_value(s.subrange(start as int, start + 1)) == value as nat);
        }
        while self.pos < self.len && is_digit_char(self.input.get_char(self.pos))
            invariant
                self.wf(),
                self.input == old(self).input,
                self.input@ == s,
                start == old(self).pos,
                start < self.pos <= self.len,
                is_digit(s[start as int]),
                digit_end(s, self.pos as int) == digit_end(s, start as int),
                value as nat == digits_value(s.subrange(start as int, self.pos as int)),
            decreases self.len - self.pos,
        {
            let d = self.input.get_char(self.pos);
            let next = self.pos + 1;
            let digit = (d as u32 - '0' as u32) as u16;
            proof {
                assert(s.subrange(start as int, next as int).drop_last() =~= s.subrange(
                    start as int,
                    self.pos as int,
                ));
                lemma_digit_end_bounds(s, next as int);
                assert(s.subrange(start as int, next as int).last() == d);
                assert(digits_value(s.subrange(start as int, next as int)) == value as nat * 10
                    + digit as nat);
            }
            if value > 6553 || (value == 6553 && digit > 5) {
                proof {
                    assert(digit_end(s, self.pos as int) == digit_end(s, next as int));
                    lemma_digits_value_grows(s, start as int, next as int, digit_end(s, start as int));
                }
                return Err(ParserError::ExpectedInteger);
            }
            value = value * 10 + digit;
            self.pos = next;
        }
        Ok(value)
    }

    /// The lines of one block, up to the end of the input.
    fn host_fields(&mut self) -> (r: Result<Host, ParserError>)
        requires
            old(self).wf(),
        ensures
            final(self).wf(),
            final(self).input == old(self).input,
            parsed_as(r, final(self).pos as int, strict_body(old(self).input@, old(self).pos as int)),
    {
        let ghost s = self.input@;
        let ghost start = self.pos as int;
        let mut first = true;
        let mut host_name: Option<String> = None;
        let mut user: Option<String> = None;
        let mut identity_file: Option<String> = None;
        let mut port: Option<u16> = None;
        loop
            invariant
                self.wf(),
                self.input == old(self).input,
                self.input@ == s,
                start == old(self).pos,
                strict_fields_from(
                    s,
                    self.pos as int,
                    first,
                    FieldsView {
                        host_name: opt_view(host_name),
                        user: opt_view(user),
                        identity_file: opt_view(identity_file),
                        port: port,
                    },
                ) == strict_fields_from(s, start, true, no_fields()),
            ensures
                self.wf(),
                self.input == old(self).input,
                strict_fields_from(s, start, true, no_fields()) == Ok::<(FieldsView, int), ErrorView>(
                    (
                        FieldsView {
                            host_name: opt_view(host_name),
                            user: opt_view(user),
                            identity_file: opt_view(identity_file),
                            port: port,
                        },
                        self.pos as int,
                    ),
                ),
            decreases self.len - self.pos,
        {
            let ghost before = self.pos as int;
            if self.pos >= self.len {
                break;
            }
            let ch = match self.advance() {
                Ok(c) => c,
                Err(e) => {
                    return Err(e);
                },
            };
            if !first && ch != '\n' {
                return Err(ParserError::UnexpectedToken);
            }
            first = false;
            proof {
                lemma_ws_end_bounds(s, self.pos as int);
            }
            self.pos = skip_ws(self.input, self.pos);
            let k = self.pos;
            let q = skip_word(self.input, k);
            proof {
                lemma_word_end_bounds(s, k as int);
            }
            let key = keyword_in(self.input, k, q);
            self.pos = q;
            match key {
                Ok(Identifier::Port) => {
                    if port.is_some() {
                        return Err(ParserError::Message("duplicate field `Port`".to_owned()));
                    }
                },
                Ok(Identifier::HostName) => {
                    if host_name.is_some() {
                        return Err(ParserError::Message("duplicate field `HostName`".to_owned()));
                    }
                },
                Ok(Identifier::User) => {
                    if user.is_some() {
                        return Err(ParserError::Message("duplicate field `User`".to_owned()));
                    }
                },
                Ok(Identifier::IdentityFile) => {
                    if identity_file.is_some() {
                        return Err(
                            ParserError::Message("duplicate field `IdentityFile`".to_owned()),
                        );
                    }
                },
                _ => {},
            }
            match self.advance() {
                Ok(c) => {
                    if !(c == ' ' || c == '\t') {
                        return Err(ParserError::UnexpectedToken);
                    }
                },
                Err(e) => {
                    return Err(e);
                },
            }
            proof {
                lemma_word_end_bounds(s, self.pos as int);
                lemma_digit_end_bounds(s, self.pos as int);
            }
            match key {
                Ok(Identifier::Port) => {
                    match self.parse_unsigned() {
                        Ok(n) => {
                            port = Some(n);
                        },
                        Err(e) => {
                            return Err(e);
                        },
                    }
                },
                Ok(Identifier::HostName) => {
                    host_name = Some(self.parse_string());
                },
                Ok(Identifier::User) => {
                    user = Some(self.parse_string());
                },
                Ok(Identifier::IdentityFile) => {
                    identity_file = Some(self.parse_string());
                },
                _ => {},
            }
            assert(self.pos > before);
        }
        let host_name = match host_name {
            Some(v) => v,
            None => {
                return Err(ParserError::Message("missing field `HostName`".to_owned()));
            },
        };
        let user = match user {
            Some(v) => v,
            None => {
                return Err(ParserError::Message("missing field `User`".to_owned()));
            },
        };
        let identity_file = match identity_file {
            Some(v) => v,
            None => {
                return Err(ParserError::Message("missing field `IdentityFile`".to_owned()));
            },
        };
        let port = match port {
            Some(n) => n,
            None => {
                return Err(ParserError::Message("missing field `Port`".to_owned()));
            },
        };
        Ok(Host { host_name, user, identity_file, port })
    }

    /// One `Host` block.
    fn deserialize_struct(&mut self) -> (r: Result<Host, ParserError>)
        requires
            old(self).wf(),
        ensures
            final(self).wf(),
            final(self).input == old(self).input,
            parsed_as(
                r,
                final(self).pos as int,
                strict_host_at(old(self).input@, old(self).pos as int),
            ),
    {
        let ghost s = self.input@;
        proof {
            lemma_ws_end_bounds(s, self.pos as int);
        }
        self.pos = skip_ws(self.input, self.pos);
        let i1 = self.pos;
        let a = skip_word(self.input, i1);
        proof {
            lemma_word_end_bounds(s, i1 as int);
        }
        match keyword_in(self.input, i1, a) {
            Ok(Identifier::Host) => {},
            Ok(_) => {
                return Err(ParserError::UnexpectedToken);
            },
            Err(e) => {
                return Err(e);
            },
        }
        self.pos = a;
        if let Err(e) = self.advance() {
            return Err(e);
        }
        let _alias = self.parse_string();
        if let Err(e) = self.advance() {
            return Err(e);
        }
        self.host_fields()
    }
}

/// A value that can be read from configuration text in the strict form.
pub trait FromConfig: Sized + View {
    /// What reading from position `i` of `s` gives, with the position after it.
    spec fn parse_spec(s: Seq<char>, i: int) -> Result<(Self::V, int), ErrorView>;

    fn deserialize(de: &mut Deserializer<'_>) -> (r: Result<Self, ParserError>)
        requires
            old(de).wf(),
        ensures
            final(de).wf(),
            final(de).text() == old(de).text(),
            parsed_as(r, final(de).position(), Self::parse_spec(old(de).text(), old(de).position())),
    ;
}

impl FromConfig for Host {
    open spec fn parse_spec(s: Seq<char>, i: int) -> Result<(HostView, int), ErrorView> {
        strict_host_at(s, i)
    }

    fn deserialize(de: &mut Deserializer<'_>) -> (r: Result<Host, ParserError>) {
        de.deserialize_struct()
    }
}

/// Reads a `T` that takes up the whole of `s`.
pub fn from_str<T: FromConfig>(s: &str) -> (r: Result<T, ParserError>)
    ensures
        result_is(r, exact(T::parse_spec(s@, 0), s@)),
{
    let mut de = Deserializer::from_str(s);
    let t = match T::deserialize(&mut de) {
        Ok(t) => t,
        Err(e) => {
            return Err(e);
        },
    };
    if de.pos >= de.len {
        Ok(t)
    } else {
        Err(ParserError::TrailingCharacters)
    }
}

} // verus!
