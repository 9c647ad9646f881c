use crate::error::Error;
use crate::text::str_eq;
use vstd::prelude::*;
use vstd::string::StrSliceExecFns;
use vstd::string::StringExecFns;

verus! {

/// The format's whitespace: space, tab, and the ASCII line and page breaks.
pub open spec fn is_space(c: char) -> bool {
    c == ' ' || c == '\t' || c == '\n' || c == '\r' || c == '\u{b}' || c == '\u{c}'
}

/// The fixed single-character delimiters; each is a token of its own.
pub open spec fn is_delim(c: char) -> bool {
    c == ',' || c == ';' || c == ':' || c == '=' || c == '{' || c == '}' || c == '/'
}

fn space_char(c: char) -> (r: bool)
    ensures
        r == is_space(c),
{
    c == ' ' || c == '\t' || c == '\n' || c == '\r' || c == '\u{b}' || c == '\u{c}'
}

fn delim_char(c: char) -> (r: bool)
    ensures
        r == is_delim(c),
{
    c == ',' || c == ';' || c == ':' || c == '=' || c == '{' || c == '}' || c == '/'
}

/// The skip phase of the scanner: where it stands relative to whitespace and
/// comments.  `Block` carries whether the character just read was a `*`.
pub enum SkipState {
    Search,
    ExpectComment,
    Block(bool),
    Line,
}

/// Where the next token starts when scanning from `i` in state `st`:
/// whitespace is passed over, `/* */` and `//` comments are skipped, a `/`
/// followed by anything else is [`Error::ExpectedComment`], and running out
/// of text is [`Error::ExpectedToken`].
pub open spec fn token_start(s: Seq<char>, i: int, st: SkipState) -> Result<int, Error>
    decreases s.len() - i,
{
    if i >= s.len() {
        Err(Error::ExpectedToken)
    } else {
        let c = s[i];
        match st {
            SkipState::Search => if c == '/' {
                token_start(s, i + 1, SkipState::ExpectComment)
            } else if is_space(c) {
                token_start(s, i + 1, SkipState::Search)
            } else {
                Ok(i)
            },
            SkipState::ExpectComment => if c == '*' {
                token_start(s, i + 1, SkipState::Block(true))
            } else if c == '/' {
                token_start(s, i + 1, SkipState::Line)
            } else {
                Err(Error::ExpectedComment)
            },
            SkipState::Block(star) => if star && c == '/' {
                token_start(s, i + 1, SkipState::Search)
            } else {
                token_start(s, i + 1, SkipState::Block(c == '*'))
            },
            SkipState::Line => if c == '\n' {
                token_start(s, i + 1, SkipState::Search)
            } else {
                token_start(s, i + 1, SkipState::Line)
            },
        }
    }
}

/// One past the closing quote of a character string whose opening quote
/// stands just before `j`, or the end of the text when it never closes.
pub open spec fn string_end(s: Seq<char>, j: int) -> int
    decreases s.len() - j,
{
    if j >= s.len() {
        s.len() as int
    } else if s[j] == '"' {
        j + 1
    } else {
        string_end(s, j + 1)
    }
}

/// The first delimiter, whitespace or quote at or after `j`, or the end of
/// the text.
pub open spec fn ident_end(s: Seq<char>, j: int) -> int
    decreases s.len() - j,
{
    if j >= s.len() {
        s.len() as int
    } else if is_delim(s[j]) || is_space(s[j]) || s[j] == '"' {
        j
    } else {
        ident_end(s, j + 1)
    }
}

/// Where the token starting at `start` ends: a quoted string runs through its
/// closing quote, a delimiter is one character, and anything else is a
/// contiguous run free of whitespace, delimiters and quotes.
pub open spec fn token_end(s: Seq<char>, start: int) -> int
    recommends
        0 <= start < s.len(),
{
    if s[start] == '"' {
        string_end(s, start + 1)
    } else if is_delim(s[start]) {
        start + 1
    } else {
        ident_end(s, start + 1)
    }
}

/// The bounds of the next token when scanning from `i`, or the error the scan
/// raises.
pub open spec fn token_at(s: Seq<char>, i: int) -> Result<(int, int), Error> {
    match token_start(s, i, SkipState::Search) {
        Ok(start) => Ok((start, token_end(s, start))),
        Err(e) => Err(e),
    }
}

pub proof fn lemma_token_start_bounds(s: Seq<char>, i: int, st: SkipState)
    requires
        0 <= i,
    ensures
        token_start(s, i, st) matches Ok(p) ==> i <= p < s.len() && !is_space(s[p]) && s[p] != '/',
    decreases s.len() - i,
{
    if i < s.len() {
        lemma_token_start_bounds(s, i + 1, SkipState::Search);
        lemma_token_start_bounds(s, i + 1, SkipState::ExpectComment);
        lemma_token_start_bounds(s, i + 1, SkipState::Block(true));
        lemma_token_start_bounds(s, i + 1, SkipState::Block(s[i] == '*'));
        lemma_token_start_bounds(s, i + 1, SkipState::Line);
    }
}

pub proof fn lemma_string_end_bounds(s: Seq<char>, j: int)
    requires
        0 <= j <= s.len(),
    ensures
        j <= string_end(s, j) <= s.len(),
    decreases s.len() - j,
{
    if j < s.len() && s[j] != '"' {
        lemma_string_end_bounds(s, j + 1);
    }
}

pub proof fn lemma_ident_end_bounds(s: Seq<char>, j: int)
    requires
        0 <= j <= s.len(),
    ensures
        j <= ident_end(s, j) <= s.len(),
    decreases s.len() - j,
{
    if j < s.len() && !(is_delim(s[j]) || is_space(s[j]) || s[j] == '"') {
        lemma_ident_end_bounds(s, j + 1);
    }
}

/// A found token is never empty and lies inside the text, at or after where
/// the scan began.
pub proof fn lemma_token_bounds(s: Seq<char>, i: int)
    requires
        0 <= i,
    ensures
        token_at(s, i) matches Ok(se) ==> i <= se.0 < se.1 <= s.len(),
{
    lemma_token_start_bounds(s, i, SkipState::Search);
    if let Ok(start) = token_start(s, i, SkipState::Search) {
        lemma_string_end_bounds(s, start + 1);
        lemma_ident_end_bounds(s, start + 1);
    }
}

/// Matching a fixed sequence of literal tokens: each scanned token must read
/// exactly as expected, else [`Error::IncorrectToken`]; scan errors pass
/// through.  The result is the scan position after the last literal.
pub open spec fn tokens_match(s: Seq<char>, i: int, expected: Seq<Seq<char>>) -> Result<int, Error>
    decreases expected.len(),
{
    if expected.len() == 0 {
        Ok(i)
    } else {
        match token_at(s, i) {
            Err(e) => Err(e),
            Ok(se) => if s.subrange(se.0, se.1) == expected[0] {
                tokens_match(s, se.1, expected.subrange(1, expected.len() as int))
            } else {
                Err(Error::IncorrectToken)
            },
        }
    }
}

/// Where the cursor stands after a literal match is attempted: after every
/// consumed token, including a mismatching one; a scan failure leaves it
/// where that scan began.
pub open spec fn tokens_match_cursor(s: Seq<char>, i: int, expected: Seq<Seq<char>>) -> int
    decreases expected.len(),
{
    if expected.len() == 0 {
        i
    } else {
        match token_at(s, i) {
            Err(_) => i,
            Ok(se) => if s.subrange(se.0, se.1) == expected[0] {
                tokens_match_cursor(s, se.1, expected.subrange(1, expected.len() as int))
            } else {
                se.1
            },
        }
    }
}

/// Matching literals never moves the scan backwards, and a non-empty match
/// moves it strictly forward.
pub proof fn lemma_tokens_match_bounds(s: Seq<char>, i: int, expected: Seq<Seq<char>>)
    requires
        0 <= i,
    ensures
        tokens_match(s, i, expected) matches Ok(ni) ==> i <= ni && (expected.len() > 0 ==> i < ni),
    decreases expected.len(),
{
    if expected.len() > 0 {
        lemma_token_bounds(s, i);
        if let Ok(se) = token_at(s, i) {
            lemma_tokens_match_bounds(s, se.1, expected.subrange(1, expected.len() as int));
        }
    }
}

/// The lexical scanner: holds the full file text and a cursor.
///
/// `next` consumes and returns the next token, `peek` returns it without
/// advancing; both answer exactly what [`token_at`] names at the cursor.
#[derive(Debug)]
pub struct Tokenizer {
    text: String,
    index: usize,
}

impl Tokenizer {
    /// The cursor never leaves the text.
    pub closed spec fn wf(self) -> bool {
        self.index <= self.text@.len()
    }

    pub closed spec fn spec_text(self) -> Seq<char> {
        self.text@
    }

    pub closed spec fn spec_index(self) -> int {
        self.index as int
    }

    /// The length of the held text, in characters.
    pub fn text_len(&self) -> (n: usize)
        ensures
            n == self.spec_text().len(),
    {
        self.text.as_str().unicode_len()
    }

    pub fn new(text: &str) -> (r: Tokenizer)
        ensures
            r.wf(),
            r.spec_text() == text@,
            r.spec_index() == 0,
    {
        Tokenizer { text: String::from_str(text), index: 0 }
    }

    /// Scans the next token.  With `update` the cursor moves past it, else it
    /// stays; the text itself never changes.
    #[verifier::loop_isolation(false)]
    pub fn parse(&mut self, update: bool) -> (r: Result<String, Error>)
        requires
            old(self).wf(),
        ensures
            final(self).wf(),
            final(self).spec_text() == old(self).spec_text(),
            match token_at(old(self).spec_text(), old(self).spec_index()) {
                Ok(se) => {
                    &&& r matches Ok(tok) && tok@ == old(self).spec_text().subrange(se.0, se.1)
                    &&& final(self).spec_index() == if update {
                        se.1
                    } else {
                        old(self).spec_index()
                    }
                },
                Err(e) => r == Err::<String, Error>(e) && final(self).spec_index() == old(
                    self,
                ).spec_index(),
            },
            !update ==> *final(self) == *old(self),
            final(self).spec_index() <= final(self).spec_text().len(),
    {
        let ghost s = self.text@;
        let n = self.text.as_str().unicode_len();
        proof {
            lemma_token_bounds(s, self.index as int);
        }
        // skip phase: find where the token starts
        let mut i = self.index;
        let mut st = SkipState::Search;
        let mut found: Option<usize> = None;
        while found.is_none() && i < n
            invariant
                self.index <= i <= n,
                match found {
                    None => token_start(s, self.index as int, SkipState::Search) == token_start(
                        s,
                        i as int,
                        st,
                    ),
                    Some(p) => token_start(s, self.index as int, SkipState::Search) == Ok::<
                        int,
                        Error,
                    >(p as int) && p < n,
                },
            decreases n - i, (if found is None { 1int } else { 0int }),
        {
            let c = self.text.as_str().get_char(i);
            match st {
                SkipState::Search => {
                    if c == '/' {
                        st = SkipState::ExpectComment;
                        i = i + 1;
                    } else if space_char(c) {
                        i = i + 1;
                    } else {
                        found = Some(i);
                    }
                },
                SkipState::ExpectComment => {
                    if c == '*' {
                        st = SkipState::Block(true);
                        i = i + 1;
                    } else if c == '/' {
                        st = SkipState::Line;
                        i = i + 1;
                    } else {
                        return Err(Error::ExpectedComment);
                    }
                },
                SkipState::Block(star) => {
                    if star && c == '/' {
                        st = SkipState::Search;
                    } else {
                        st = SkipState::Block(c == '*');
                    }
                    i = i + 1;
                },
                SkipState::Line => {
                    if c == '\n' {
                        st = SkipState::Search;
                    }
                    i = i + 1;
                },
            }
        }
        let start = match found {
            Some(p) => p,
            None => {
                return Err(Error::ExpectedToken);
            },
        };
        // token phase: find where it ends
        let c0 = self.text.as_str().get_char(start);
        let end: usize;
        if c0 == '"' {
            let mut j = start + 1;
            let mut e: Option<usize> = None;
            while e.is_none() && j < n
                invariant
                    start + 1 <= j <= n,
                    match e {
                        None => string_end(s, start + 1) == string_end(s, j as int),
                        Some(p) => string_end(s, start + 1) == p as int && p <= n,
                    },
                decreases n - j, (if e is None { 1int } else { 0int }),
            {
                if self.text.as_str().get_char(j) == '"' {
                    e = Some(j + 1);
                } else {
                    j = j + 1;
                }
            }
            end = match e {
                Some(p) => p,
                None => n,
            };
        } else if delim_char(c0) {
            end = start + 1;
        } else {
            let mut j = start + 1;
            let mut e: Option<usize> = None;
            while e.is_none() && j < n
                invariant
                    start + 1 <= j <= n,
                    match e {
                        None => ident_end(s, start + 1) == ident_end(s, j as int),
                        Some(p) => ident_end(s, start + 1) == p as int && p <= n,
                    },
                decreases n - j, (if e is None { 1int } else { 0int }),
            {
                let c = self.text.as_str().get_char(j);
                if delim_char(c) || space_char(c) || c == '"' {
                    e = Some(j);
                } else {
                    j = j + 1;
                }
            }
            end = match e {
                Some(p) => p,
                None => n,
            };
        }
        let tok = String::from_str(self.text.as_str().substring_char(start, end));
        if update {
            self.index = end;
        }
        Ok(tok)
    }

    /// Consumes and returns the next token.
    pub fn next(&mut self) -> (r: Result<String, Error>)
        requires
            old(self).wf(),
        ensures
            final(self).wf(),
            final(self).spec_text() == old(self).spec_text(),
            match token_at(old(self).spec_text(), old(self).spec_index()) {
                Ok(se) => {
                    &&& r matches Ok(tok) && tok@ == old(self).spec_text().subrange(se.0, se.1)
                    &&& final(self).spec_index() == se.1
                    &&& final(self).spec_index() > old(self).spec_index()
                },
                Err(e) => r == Err::<String, Error>(e) && final(self).spec_index() == old(
                    self,
                ).spec_index(),
            },
            final(self).spec_index() <= final(self).spec_text().len(),
    {
        proof {
            lemma_token_bounds(self.spec_text(), self.spec_index());
        }
        self.parse(true)
    }

    /// Returns the next token without advancing.
    pub fn peek(&mut self) -> (r: Result<String, Error>)
        requires
            old(self).wf(),
        ensures
            final(self).wf(),
            *final(self) == *old(self),
            match token_at(old(self).spec_text(), old(self).spec_index()) {
                Ok(se) => r matches Ok(tok) && tok@ == old(self).spec_text().subrange(se.0, se.1),
                Err(e) => r == Err::<String, Error>(e),
            },
            final(self).spec_index() <= final(self).spec_text().len(),
    {
        self.parse(false)
    }

    /// Consumes tokens that must each read exactly as `expected` lists, in
    /// order; the first mismatch is [`Error::IncorrectToken`].
    #[verifier::loop_isolation(false)]
    pub fn check_equal(&mut self, expected: &[&str]) -> (r: Result<(), Error>)
        requires
            old(self).wf(),
        ensures
            final(self).wf(),
            final(self).spec_text() == old(self).spec_text(),
            match tokens_match(
                old(self).spec_text(),
                old(self).spec_index(),
                expected@.map_values(|t: &str| t@),
            ) {
                Ok(ni) => r is Ok && final(self).spec_index() == ni,
                Err(e) => r == Err::<(), Error>(e),
            },
            final(self).spec_index() == tokens_match_cursor(
                old(self).spec_text(),
                old(self).spec_index(),
                expected@.map_values(|t: &str| t@),
            ),
            final(self).spec_index() <= final(self).spec_text().len(),
            old(self).spec_index() <= final(self).spec_index(),
            r is Ok && expected@.len() > 0 ==> final(self).spec_index() > old(self).spec_index()
                && final(self).spec_index() >= 1,
    {
        proof {
            lemma_tokens_match_bounds(
                old(self).spec_text(),
                old(self).spec_index(),
                expected@.map_values(|t: &str| t@),
            );
        }
        let ghost s = self.spec_text();
        let ghost exp = expected@.map_values(|t: &str| t@);
        let m = expected.len();
        proof {
            assert(exp.subrange(0, m as int) =~= exp);
        }
        let mut k: usize = 0;
        while k < m
            invariant
                self.wf(),
                self.spec_text() == s,
                k <= m,
                m == exp.len(),
                exp == expected@.map_values(|t: &str| t@),
                old(self).spec_index() <= self.spec_index(),
                tokens_match(s, old(self).spec_index(), exp) == tokens_match(
                    s,
                    self.spec_index(),
                    exp.subrange(k as int, m as int),
                ),
                tokens_match_cursor(s, old(self).spec_index(), exp) == tokens_match_cursor(
                    s,
                    self.spec_index(),
                    exp.subrange(k as int, m as int),
                ),
            decreases m - k,
        {
            let e = vstd::slice::slice_index_get(expected, k);
            let ghost pre = self.spec_index();
            let tok = match self.next() {
                Ok(t) => t,
                Err(err) => {
                    return Err(err);
                },
            };
            proof {
                assert(exp.subrange(k as int, m as int)[0] == exp[k as int]);
            }
            if !str_eq(tok.as_str(), e) {
                return Err(Error::IncorrectToken);
            }
            proof {
                assert(exp.subrange(k as int, m as int).subrange(
                    1,
                    exp.subrange(k as int, m as int).len() as int,
                ) =~= exp.subrange(k + 1, m as int));
            }
            k = k + 1;
        }
        proof {
            assert(exp.subrange(m as int, m as int) =~= Seq::<Seq<char>>::empty());
        }
        Ok(())
    }
}

} // verus!
