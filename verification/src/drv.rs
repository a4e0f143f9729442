//! Parser for Nix `.drv` files, which are written in the ATerm format:
//!
//! ```text
//! Derive(
//!   [("out","/nix/store/...","",""), ...],       // outputs
//!   [("/nix/store/...drv",["out"]), ...],         // input derivations
//!   ["/nix/store/...", ...],                      // input sources
//!   "x86_64-linux",                               // platform
//!   "/nix/store/.../bash",                        // builder
//!   ["-e", "...", ...],                           // args
//!   [("key","value"), ...]                        // env vars
//! )
//! ```
//!
//! A string holds the escapes `\"`, `\\`, `\n`, `\r` and `\t`, and no others. Each other byte
//! stands for the character with its number.
use crate::sorting;
use crate::strmap;
use crate::strmap::StrMap;
use crate::text;
use vstd::prelude::*;

verus! {

/// One output of a derivation.
#[derive(Debug)]
pub struct Output {
    pub path: String,
    pub hash_algo: String,
    pub hash: String,
}

/// A parsed Nix derivation.
#[derive(Debug)]
pub struct Derivation {
    pub outputs: StrMap<Output>,
    /// Input derivations and the outputs that are asked of each.
    pub input_derivations: StrMap<Vec<String>>,
    pub input_sources: Vec<String>,
    pub platform: String,
    pub builder: String,
    pub args: Vec<String>,
    pub env: StrMap<String>,
}

/// What an [`Output`] holds.
#[verifier::ext_equal]
pub struct OutputView {
    pub path: Seq<char>,
    pub hash_algo: Seq<char>,
    pub hash: Seq<char>,
}

/// What a [`Derivation`] holds.
#[verifier::ext_equal]
pub struct DrvView {
    pub outputs: Map<Seq<char>, OutputView>,
    pub input_derivations: Map<Seq<char>, Seq<Seq<char>>>,
    pub input_sources: Seq<Seq<char>>,
    pub platform: Seq<char>,
    pub builder: Seq<char>,
    pub args: Seq<Seq<char>>,
    pub env: Map<Seq<char>, Seq<char>>,
}

impl DeepView for Output {
    type V = OutputView;

    open spec fn deep_view(&self) -> OutputView {
        OutputView { path: self.path@, hash_algo: self.hash_algo@, hash: self.hash@ }
    }
}

impl DeepView for Derivation {
    type V = DrvView;

    open spec fn deep_view(&self) -> DrvView {
        DrvView {
            outputs: self.outputs@,
            input_derivations: self.input_derivations@,
            input_sources: self.input_sources.deep_view(),
            platform: self.platform@,
            builder: self.builder@,
            args: self.args.deep_view(),
            env: self.env@,
        }
    }
}

/// How Rust writes a character for debugging.
pub uninterp spec fn char_debug(c: char) -> Seq<char>;

/// How Rust writes a string for debugging.
pub uninterp spec fn str_debug(s: Seq<char>) -> Seq<char>;

/// `format!("{:?}")` of a character: its `Debug` text, which the character determines.
#[verifier::external_body]
fn debug_char(c: char) -> (r: String)
    ensures
        r@ == char_debug(c),
{
    format!("{c:?}")
}

/// `format!("{:?}")` of a string: its `Debug` text, which the string determines.
#[verifier::external_body]
fn debug_str(s: &str) -> (r: String)
    ensures
        r@ == str_debug(s@),
{
    format!("{s:?}")
}

/// The outcome of reading a `T` from some position on: the value and the position after it, or
/// a message.
pub type Read<T> = Result<(T, int), Seq<char>>;

/// Reads byte `b`; gives the position after it.
pub open spec fn read_byte(input: Seq<u8>, pos: int, b: u8) -> Result<int, Seq<char>> {
    if pos < input.len() {
        if input[pos] == b {
            Ok(pos + 1)
        } else {
            Err(
                "expected "@ + char_debug(b as char) + ", got "@ + char_debug(input[pos] as char)
                    + " at pos "@ + text::decimal(pos as nat),
            )
        }
    } else {
        Err("expected "@ + char_debug(b as char) + ", got EOF at pos "@ + text::decimal(pos as nat))
    }
}

/// Bytes as the characters with their numbers.
pub open spec fn latin1(b: Seq<u8>) -> Seq<char> {
    Seq::new(b.len(), |i: int| b[i] as char)
}

/// The bytes of `input` from `pos` on, at most `n` of them.
pub open spec fn some_bytes(input: Seq<u8>, pos: int, n: int) -> Seq<u8> {
    if pos + n <= input.len() {
        input.subrange(pos, pos + n)
    } else {
        input.skip(pos)
    }
}

/// Reads the word `w`; gives the position after it.
pub open spec fn read_word(input: Seq<u8>, pos: int, w: Seq<char>) -> Result<int, Seq<char>> {
    let b = vstd::utf8::encode_utf8(w);
    if text::has_at(input, pos, b) {
        Ok(pos + b.len())
    } else {
        Err(
            "expected "@ + str_debug(w) + ", got "@ + str_debug(
                latin1(some_bytes(input, pos, b.len() as int)),
            ) + " at pos "@ + text::decimal(pos as nat),
        )
    }
}

/// What stands behind a backslash, and the character that it means.
pub open spec fn unescaped(b: u8) -> Option<char> {
    if b == 34 {
        Some('"')
    } else if b == 92 {
        Some('\\')
    } else if b == 110 {
        Some('\n')
    } else if b == 114 {
        Some('\r')
    } else if b == 116 {
        Some('\t')
    } else {
        None
    }
}

/// Reads the rest of a string of which `acc` was read.
pub open spec fn read_string_rest(input: Seq<u8>, pos: int, acc: Seq<char>) -> Read<Seq<char>>
    decreases input.len() - pos,
{
    if pos < 0 || pos >= input.len() {
        Err("unterminated string"@)
    } else if input[pos] == 34 {
        Ok((acc, pos + 1))
    } else if input[pos] == 92 {
        if pos + 1 >= input.len() {
            Err("unterminated escape"@)
        } else {
            match unescaped(input[pos + 1]) {
                Some(c) => read_string_rest(input, pos + 2, acc.push(c)),
                None => Err(
                    "unknown escape \\"@ + seq![input[pos + 1] as char] + " at pos "@
                        + text::decimal((pos + 1) as nat),
                ),
            }
        }
    } else {
        read_string_rest(input, pos + 1, acc.push(input[pos] as char))
    }
}

/// Reads a quoted string.
pub open spec fn read_string(input: Seq<u8>, pos: int) -> Read<Seq<char>> {
    match read_byte(input, pos, 34) {
        Ok(p) => read_string_rest(input, p, Seq::empty()),
        Err(e) => Err(e),
    }
}

/// What was read, once byte `b` is read behind it.
pub open spec fn then_byte<T>(r: Read<T>, input: Seq<u8>, b: u8) -> Read<T> {
    match r {
        Ok((v, p)) => match read_byte(input, p, b) {
            Ok(q) => Ok((v, q)),
            Err(e) => Err(e),
        },
        Err(e) => Err(e),
    }
}

/// Parser state: a cursor over bytes.
pub struct Parser<'a> {
    pub input: &'a [u8],
    pub pos: usize,
}

impl<'a> Parser<'a> {
    /// The cursor stands in the input or at its end.
    pub open spec fn wf(&self) -> bool {
        self.pos <= self.input@.len()
    }

    /// A cursor at the start of the input.
    pub fn new(input: &'a [u8]) -> (r: Self)
        ensures
            r.wf(),
            r.input@ == input@,
            r.pos == 0,
    {
        Parser { input, pos: 0 }
    }

    /// The byte at the cursor.
    pub fn peek(&self) -> (r: Option<u8>)
        requires
            self.wf(),
        ensures
            r == if self.pos < self.input@.len() {
                Some(self.input@[self.pos as int])
            } else {
                None
            },
    {
        if self.pos < self.input.len() {
            Some(self.input[self.pos])
        } else {
            None
        }
    }

    /// Moves the cursor.
    pub fn advance(&mut self, n: usize)
        requires
            old(self).pos + n <= old(self).input@.len(),
        ensures
            final(self).wf(),
            final(self).input@ == old(self).input@,
            final(self).pos == old(self).pos + n,
    {
        let len: usize = self.input.len();
        self.pos = self.pos + n;
    }

    /// Reads one byte.
    pub fn expect_byte(&mut self, b: u8) -> (r: Result<(), String>)
        requires
            old(self).wf(),
        ensures
            final(self).wf(),
            final(self).input@ == old(self).input@,
            match r {
                Ok(_) => read_byte(old(self).input@, old(self).pos as int, b) == Ok::<
                    int,
                    Seq<char>,
                >(final(self).pos as int),
                Err(e) => read_byte(old(self).input@, old(self).pos as int, b) == Err::<
                    int,
                    Seq<char>,
                >(e@),
            },
    {
        match self.peek() {
            Some(c) => {
                if c == b {
                    self.advance(1);
                    Ok(())
                } else {
                    let mut e = "expected ".to_owned();
                    e.append(debug_char(b as char).as_str());
                    e.append(", got ");
                    e.append(debug_char(c as char).as_str());
                    e.append(" at pos ");
                    e.append(text::usize_text(self.pos).as_str());
                    Err(e)
                }
            },
            None => {
                let mut e = "expected ".to_owned();
                e.append(debug_char(b as char).as_str());
                e.append(", got EOF at pos ");
                e.append(text::usize_text(self.pos).as_str());
                Err(e)
            },
        }
    }

    /// Reads one word.
    pub fn expect_str(&mut self, s: &str) -> (r: Result<(), String>)
        requires
            old(self).wf(),
        ensures
            final(self).wf(),
            final(self).input@ == old(self).input@,
            match r {
                Ok(_) => read_word(old(self).input@, old(self).pos as int, s@) == Ok::<
                    int,
                    Seq<char>,
                >(final(self).pos as int),
                Err(e) => read_word(old(self).input@, old(self).pos as int, s@) == Err::<
                    int,
                    Seq<char>,
                >(e@),
            },
    {
        let b = s.as_bytes();
        if text::bytes_at(self.input, self.pos, b) {
            self.advance(b.len());
            Ok(())
        } else {
            let n: usize = self.input.len();
            let end: usize = if b.len() <= n - self.pos {
                self.pos + b.len()
            } else {
                n
            };
            let mut got = String::new();
            let mut i: usize = self.pos;
            let ghost seen = some_bytes(self.input@, self.pos as int, b@.len() as int);
            while i < end
                invariant
                    self.pos <= i <= end <= self.input@.len(),
                    seen == self.input@.subrange(self.pos as int, end as int),
                    got@ == latin1(seen).take(i - self.pos),
                decreases end - i,
            {
                got.push(self.input[i] as char);
                i = i + 1;
            }
            assert(got@ =~= latin1(seen));
            let mut e = "expected ".to_owned();
            e.append(debug_str(s).as_str());
            e.append(", got ");
            e.append(debug_str(got.as_str()).as_str());
            e.append(" at pos ");
            e.append(text::usize_text(self.pos).as_str());
            Err(e)
        }
    }

    /// Reads a quoted string.
    pub fn parse_string(&mut self) -> (r: Result<String, String>)
        requires
            old(self).wf(),
        ensures
            final(self).wf(),
            final(self).input@ == old(self).input@,
            match r {
                Ok(s) => read_string(old(self).input@, old(self).pos as int) == Ok::<
                    (Seq<char>, int),
                    Seq<char>,
                >((s@, final(self).pos as int)),
                Err(e) => read_string(old(self).input@, old(self).pos as int) == Err::<
                    (Seq<char>, int),
                    Seq<char>,
                >(e@),
            },
    {
        let ghost input = self.input@;
        let ghost start = self.pos as int;
        self.expect_byte(34)?;
        let mut result = String::new();
        loop
            invariant
                self.wf(),
                self.input@ == input,
                input == old(self).input@,
                start == old(self).pos,
                read_string(input, start) == read_string_rest(input, self.pos as int, result@),
            decreases input.len() - self.pos,
        {
            match self.peek() {
                None => {
                    return Err("unterminated string".to_owned());
                },
                Some(c) => {
                    if c == 34 {
                        self.advance(1);
                        return Ok(result);
                    }
                    if c == 92 {
                        self.advance(1);
                        match self.peek() {
                            None => {
                                return Err("unterminated escape".to_owned());
                            },
                            Some(d) => {
                                if d == 34 {
                                    result.push('"');
                                } else if d == 92 {
                                    result.push('\\');
                                } else if d == 110 {
                                    result.push('\n');
                                } else if d == 114 {
                                    result.push('\r');
                                } else if d == 116 {
                                    result.push('\t');
                                } else {
                                    let mut e = "unknown escape \\".to_owned();
                                    e.push(d as char);
                                    e.append(" at pos ");
                                    e.append(text::usize_text(self.pos).as_str());
                                    assert(e@ =~= "unknown escape \\"@ + seq![d as char]
                                        + " at pos "@ + text::decimal(self.pos as nat));
                                    return Err(e);
                                }
                                self.advance(1);
                            },
                        }
                    } else {
                        result.push(c as char);
                        self.advance(1);
                    }
                },
            }
        }
    }
}

/// What can stand in a list.
pub trait Item: Sized + DeepView {
    /// Reads one item.
    spec fn read(input: Seq<u8>, pos: int) -> Read<Self::V>;

    /// An item takes at least one byte and ends in the input.
    proof fn advances(input: Seq<u8>, pos: int)
        requires
            0 <= pos,
        ensures
            Self::read(input, pos) matches Ok((_, p)) ==> pos < p <= input.len(),
    ;

    /// What follows an item does not count.
    proof fn stays(input: Seq<u8>, more: Seq<u8>, pos: int)
        requires
            0 <= pos,
            input.is_prefix_of(more),
            Self::read(input, pos) is Ok,
        ensures
            Self::read(more, pos) == Self::read(input, pos),
    ;

    /// Reads one item.
    fn parse_item(p: &mut Parser) -> (r: Result<Self, String>)
        requires
            old(p).wf(),
        ensures
            final(p).wf(),
            final(p).input@ == old(p).input@,
            match r {
                Ok(v) => Self::read(old(p).input@, old(p).pos as int) == Ok::<
                    (Self::V, int),
                    Seq<char>,
                >((v.deep_view(), final(p).pos as int)),
                Err(e) => Self::read(old(p).input@, old(p).pos as int) == Err::<
                    (Self::V, int),
                    Seq<char>,
                >(e@),
            },
    ;
}

/// Reads items separated by commas up to the closing bracket, after those in `acc`.
pub open spec fn read_items<T: Item>(input: Seq<u8>, pos: int, acc: Seq<T::V>) -> Read<Seq<T::V>>
    decreases input.len() - pos,
{
    match T::read(input, pos) {
        Err(e) => Err(e),
        Ok((v, p)) => {
            if p <= pos || p >= input.len() {
                Err("unterminated list"@)
            } else if input[p] == 93 {
                Ok((acc.push(v), p + 1))
            } else if input[p] == 44 {
                read_items::<T>(input, p + 1, acc.push(v))
            } else {
                Err(
                    "expected ',' or ']', got "@ + char_debug(input[p] as char) + " at pos "@
                        + text::decimal(p as nat),
                )
            }
        },
    }
}

/// Reads a bracketed list.
pub open spec fn read_list<T: Item>(input: Seq<u8>, pos: int) -> Read<Seq<T::V>> {
    match read_byte(input, pos, 91) {
        Err(e) => Err(e),
        Ok(p) => if p < input.len() && input[p] == 93 {
            Ok((Seq::empty(), p + 1))
        } else {
            read_items::<T>(input, p, Seq::empty())
        },
    }
}

proof fn string_advances(input: Seq<u8>, pos: int, acc: Seq<char>)
    requires
        0 <= pos,
    ensures
        read_string_rest(input, pos, acc) matches Ok((_, p)) ==> pos < p <= input.len(),
    decreases input.len() - pos,
{
    if pos < input.len() && input[pos] != 34 {
        if input[pos] == 92 {
            if pos + 1 < input.len() && unescaped(input[pos + 1]) is Some {
                string_advances(input, pos + 2, acc.push(unescaped(input[pos + 1])->0));
            }
        } else {
            string_advances(input, pos + 1, acc.push(input[pos] as char));
        }
    }
}

proof fn string_stays(input: Seq<u8>, more: Seq<u8>, pos: int, acc: Seq<char>)
    requires
        0 <= pos,
        input.is_prefix_of(more),
        read_string_rest(input, pos, acc) is Ok,
    ensures
        read_string_rest(more, pos, acc) == read_string_rest(input, pos, acc),
    decreases input.len() - pos,
{
    assert(more[pos] == input[pos]);
    if input[pos] != 34 {
        if input[pos] == 92 {
            assert(more[pos + 1] == input[pos + 1]);
            string_stays(input, more, pos + 2, acc.push(unescaped(input[pos + 1])->0));
        } else {
            string_stays(input, more, pos + 1, acc.push(input[pos] as char));
        }
    }
}

proof fn byte_stays(input: Seq<u8>, more: Seq<u8>, pos: int, b: u8)
    requires
        0 <= pos,
        input.is_prefix_of(more),
        read_byte(input, pos, b) is Ok,
    ensures
        read_byte(more, pos, b) == read_byte(input, pos, b),
{
    assert(more[pos] == input[pos]);
}

/// A string and the byte behind it stay what they are, whatever follows.
proof fn string_then_stays(input: Seq<u8>, more: Seq<u8>, pos: int, b: u8)
    requires
        0 <= pos,
        input.is_prefix_of(more),
        then_byte(read_string(input, pos), input, b) is Ok,
    ensures
        then_byte(read_string(more, pos), more, b) == then_byte(read_string(input, pos), input, b),
        then_byte(read_string(input, pos), input, b)->Ok_0.1 >= 0,
{
    String::stays(input, more, pos);
    String::advances(input, pos);
    byte_stays(input, more, read_string(input, pos)->Ok_0.1, b);
}

proof fn items_stay<T: Item>(input: Seq<u8>, more: Seq<u8>, pos: int, acc: Seq<T::V>)
    requires
        0 <= pos,
        input.is_prefix_of(more),
        read_items::<T>(input, pos, acc) is Ok,
    ensures
        read_items::<T>(more, pos, acc) == read_items::<T>(input, pos, acc),
    decreases input.len() - pos,
{
    T::stays(input, more, pos);
    T::advances(input, pos);
    let (v, p) = T::read(input, pos)->Ok_0;
    assert(more[p] == input[p]);
    if input[p] == 44 {
        items_stay::<T>(input, more, p + 1, acc.push(v));
    }
}

/// A list and the byte behind it stay what they are, whatever follows.
proof fn list_then_stays<T: Item>(input: Seq<u8>, more: Seq<u8>, pos: int, b: u8)
    requires
        0 <= pos,
        input.is_prefix_of(more),
        then_byte(read_list::<T>(input, pos), input, b) is Ok,
    ensures
        then_byte(read_list::<T>(more, pos), more, b) == then_byte(
            read_list::<T>(input, pos),
            input,
            b,
        ),
        then_byte(read_list::<T>(input, pos), input, b)->Ok_0.1 >= 0,
{
    byte_stays(input, more, pos, 91);
    let p = pos + 1;
    if p < input.len() && input[p] == 93 {
        assert(more[p] == input[p]);
    } else {
        T::stays(input, more, p);
        T::advances(input, p);
        assert(more[p] == input[p]);
        items_stay::<T>(input, more, p, Seq::empty());
        items_advance::<T>(input, p, Seq::empty());
    }
    byte_stays(input, more, read_list::<T>(input, pos)->Ok_0.1, b);
}

proof fn items_advance<T: Item>(input: Seq<u8>, pos: int, acc: Seq<T::V>)
    requires
        0 <= pos,
    ensures
        read_items::<T>(input, pos, acc) matches Ok((_, p)) ==> pos < p <= input.len(),
    decreases input.len() - pos,
{
    T::advances(input, pos);
    if let Ok((v, p)) = T::read(input, pos) {
        if pos < p < input.len() && input[p] == 44 {
            items_advance::<T>(input, p + 1, acc.push(v));
        }
    }
}

impl<'a> Parser<'a> {
    /// Reads `[item,item,...]`.
    pub fn parse_list<T: Item>(&mut self) -> (r: Result<Vec<T>, String>)
        requires
            old(self).wf(),
        ensures
            final(self).wf(),
            final(self).input@ == old(self).input@,
            match r {
                Ok(v) => read_list::<T>(old(self).input@, old(self).pos as int) == Ok::<
                    (Seq<T::V>, int),
                    Seq<char>,
                >((v.deep_view(), final(self).pos as int)),
                Err(e) => read_list::<T>(old(self).input@, old(self).pos as int) == Err::<
                    (Seq<T::V>, int),
                    Seq<char>,
                >(e@),
            },
    {
        let ghost input = self.input@;
        let ghost start = self.pos as int;
        self.expect_byte(91)?;
        let mut items: Vec<T> = Vec::new();
        assert(items.deep_view() =~= Seq::<T::V>::empty());
        if self.peek() == Some(93u8) {
            self.advance(1);
            return Ok(items);
        }
        loop
            invariant
                self.wf(),
                self.input@ == input,
                input == old(self).input@,
                start == old(self).pos,
                read_list::<T>(input, start) == read_items::<T>(
                    input,
                    self.pos as int,
                    items.deep_view(),
                ),
            decreases input.len() - self.pos,
        {
            let ghost before = items.deep_view();
            proof {
                T::advances(input, self.pos as int);
            }
            let item = T::parse_item(self)?;
            let ghost v = item.deep_view();
            items.push(item);
            assert(items.deep_view() =~= before.push(v));
            match self.peek() {
                None => {
                    return Err("unterminated list".to_owned());
                },
                Some(c) => {
                    if c == 44 {
                        self.advance(1);
                    } else if c == 93 {
                        self.advance(1);
                        return Ok(items);
                    } else {
                        let mut e = "expected ',' or ']', got ".to_owned();
                        e.append(debug_char(c as char).as_str());
                        e.append(" at pos ");
                        e.append(text::usize_text(self.pos).as_str());
                        return Err(e);
                    }
                },
            }
        }
    }
}

impl Item for String {
    open spec fn read(input: Seq<u8>, pos: int) -> Read<Seq<char>> {
        read_string(input, pos)
    }

    proof fn advances(input: Seq<u8>, pos: int) {
        if read_byte(input, pos, 34) is Ok {
            string_advances(input, pos + 1, Seq::empty());
        }
    }

    proof fn stays(input: Seq<u8>, more: Seq<u8>, pos: int) {
        byte_stays(input, more, pos, 34);
        string_stays(input, more, pos + 1, Seq::empty());
    }

    fn parse_item(p: &mut Parser) -> (r: Result<Self, String>) {
        p.parse_string()
    }
}

/// A named string, `("key","value")`.
impl Item for (String, String) {
    open spec fn read(input: Seq<u8>, pos: int) -> Read<(Seq<char>, Seq<char>)> {
        match read_byte(input, pos, 40) {
            Err(e) => Err(e),
            Ok(p) => match then_byte(read_string(input, p), input, 44) {
                Err(e) => Err(e),
                Ok((k, q)) => match then_byte(read_string(input, q), input, 41) {
                    Err(e) => Err(e),
                    Ok((v, z)) => Ok(((k, v), z)),
                },
            },
        }
    }

    proof fn advances(input: Seq<u8>, pos: int) {
        if let Ok(p) = read_byte(input, pos, 40) {
            String::advances(input, p);
            if let Ok((_, q)) = then_byte(read_string(input, p), input, 44) {
                String::advances(input, q);
            }
        }
    }

    proof fn stays(input: Seq<u8>, more: Seq<u8>, pos: int) {
        byte_stays(input, more, pos, 40);
        string_then_stays(input, more, pos + 1, 44);
        let q = then_byte(read_string(input, pos + 1), input, 44)->Ok_0.1;
        string_then_stays(input, more, q, 41);
    }

    fn parse_item(p: &mut Parser) -> (r: Result<Self, String>) {
        p.expect_byte(40)?;
        let key = p.parse_string()?;
        p.expect_byte(44)?;
        let value = p.parse_string()?;
        p.expect_byte(41)?;
        Ok((key, value))
    }
}

/// A named output, `("name","path","hashAlgo","hash")`.
impl Item for (String, Output) {
    open spec fn read(input: Seq<u8>, pos: int) -> Read<(Seq<char>, OutputView)> {
        match read_byte(input, pos, 40) {
            Err(e) => Err(e),
            Ok(p) => match then_byte(read_string(input, p), input, 44) {
                Err(e) => Err(e),
                Ok((name, q)) => match then_byte(read_string(input, q), input, 44) {
                    Err(e) => Err(e),
                    Ok((path, s)) => match then_byte(read_string(input, s), input, 44) {
                        Err(e) => Err(e),
                        Ok((hash_algo, t)) => match then_byte(read_string(input, t), input, 41) {
                            Err(e) => Err(e),
                            Ok((hash, z)) => Ok(((name, OutputView { path, hash_algo, hash }), z)),
                        },
                    },
                },
            },
        }
    }

    proof fn advances(input: Seq<u8>, pos: int) {
        if let Ok(p) = read_byte(input, pos, 40) {
            String::advances(input, p);
            if let Ok((_, q)) = then_byte(read_string(input, p), input, 44) {
                String::advances(input, q);
                if let Ok((_, s)) = then_byte(read_string(input, q), input, 44) {
                    String::advances(input, s);
                    if let Ok((_, t)) = then_byte(read_string(input, s), input, 44) {
                        String::advances(input, t);
                    }
                }
            }
        }
    }

    proof fn stays(input: Seq<u8>, more: Seq<u8>, pos: int) {
        byte_stays(input, more, pos, 40);
        string_then_stays(input, more, pos + 1, 44);
        let q = then_byte(read_string(input, pos + 1), input, 44)->Ok_0.1;
        string_then_stays(input, more, q, 44);
        let s = then_byte(read_string(input, q), input, 44)->Ok_0.1;
        string_then_stays(input, more, s, 44);
        let t = then_byte(read_string(input, s), input, 44)->Ok_0.1;
        string_then_stays(input, more, t, 41);
    }

    fn parse_item(p: &mut Parser) -> (r: Result<Self, String>) {
        p.expect_byte(40)?;
        let name = p.parse_string()?;
        p.expect_byte(44)?;
        let path = p.parse_string()?;
        p.expect_byte(44)?;
        let hash_algo = p.parse_string()?;
        p.expect_byte(44)?;
        let hash = p.parse_string()?;
        p.expect_byte(41)?;
        Ok((name, Output { path, hash_algo, hash }))
    }
}

/// An input derivation and the outputs asked of it, `("path",["out",...])`.
impl Item for (String, Vec<String>) {
    open spec fn read(input: Seq<u8>, pos: int) -> Read<(Seq<char>, Seq<Seq<char>>)> {
        match read_byte(input, pos, 40) {
            Err(e) => Err(e),
            Ok(p) => match then_byte(read_string(input, p), input, 44) {
                Err(e) => Err(e),
                Ok((path, q)) => match then_byte(read_list::<String>(input, q), input, 41) {
                    Err(e) => Err(e),
                    Ok((outs, z)) => Ok(((path, outs), z)),
                },
            },
        }
    }

    proof fn advances(input: Seq<u8>, pos: int) {
        if let Ok(p) = read_byte(input, pos, 40) {
            String::advances(input, p);
            if let Ok((_, q)) = then_byte(read_string(input, p), input, 44) {
                if let Ok(s) = read_byte(input, q, 91) {
                    items_advance::<String>(input, s, Seq::empty());
                }
            }
        }
    }

    proof fn stays(input: Seq<u8>, more: Seq<u8>, pos: int) {
        byte_stays(input, more, pos, 40);
        string_then_stays(input, more, pos + 1, 44);
        let q = then_byte(read_string(input, pos + 1), input, 44)->Ok_0.1;
        list_then_stays::<String>(input, more, q, 41);
    }

    fn parse_item(p: &mut Parser) -> (r: Result<Self, String>) {
        p.expect_byte(40)?;
        let path = p.parse_string()?;
        p.expect_byte(44)?;
        let outs = p.parse_list::<String>()?;
        p.expect_byte(41)?;
        Ok((path, outs))
    }
}

/// The derivation that a `.drv` file describes. What follows the closing parenthesis is not
/// looked at.
pub open spec fn read_drv(input: Seq<u8>) -> Result<DrvView, Seq<char>> {
    match read_whole(input) {
        Ok((d, _)) => Ok(d),
        Err(e) => Err(e),
    }
}

/// Reads a derivation; gives the position behind its closing parenthesis too.
pub open spec fn read_whole(input: Seq<u8>) -> Read<DrvView> {
    match read_word(input, 0, "Derive("@) {
        Err(e) => Err(e),
        Ok(p0) => match then_byte(read_list::<(String, Output)>(input, p0), input, 44) {
            Err(e) => Err(e),
            Ok((outputs, p1)) => match then_byte(
                read_list::<(String, Vec<String>)>(input, p1),
                input,
                44,
            ) {
                Err(e) => Err(e),
                Ok((drvs, p2)) => match then_byte(read_list::<String>(input, p2), input, 44) {
                    Err(e) => Err(e),
                    Ok((sources, p3)) => match then_byte(read_string(input, p3), input, 44) {
                        Err(e) => Err(e),
                        Ok((platform, p4)) => match then_byte(read_string(input, p4), input, 44) {
                            Err(e) => Err(e),
                            Ok((builder, p5)) => match then_byte(
                                read_list::<String>(input, p5),
                                input,
                                44,
                            ) {
                                Err(e) => Err(e),
                                Ok((args, p6)) => match then_byte(
                                    read_list::<(String, String)>(input, p6),
                                    input,
                                    41,
                                ) {
                                    Err(e) => Err(e),
                                    Ok((env, p7)) => Ok(
                                        (
                                            DrvView {
                                                outputs: strmap::collected(outputs),
                                                input_derivations: strmap::collected(drvs),
                                                input_sources: sources,
                                                platform,
                                                builder,
                                                args,
                                                env: strmap::collected(env),
                                            },
                                            p7,
                                        ),
                                    ),
                                },
                            },
                        },
                    },
                },
            },
        },
    }
}

/// What follows the closing parenthesis of a derivation does not count.
pub proof fn trailing_bytes_do_not_count(input: Seq<u8>, more: Seq<u8>)
    requires
        input.is_prefix_of(more),
        read_drv(input) is Ok,
    ensures
        read_whole(more) == read_whole(input),
        read_drv(more) == read_drv(input),
{
    let w = vstd::utf8::encode_utf8("Derive("@);
    let p0 = w.len() as int;
    assert(more.subrange(0, p0) =~= input.subrange(0, p0));
    list_then_stays::<(String, Output)>(input, more, p0, 44);
    let p1 = then_byte(read_list::<(String, Output)>(input, p0), input, 44)->Ok_0.1;
    list_then_stays::<(String, Vec<String>)>(input, more, p1, 44);
    let p2 = then_byte(read_list::<(String, Vec<String>)>(input, p1), input, 44)->Ok_0.1;
    list_then_stays::<String>(input, more, p2, 44);
    let p3 = then_byte(read_list::<String>(input, p2), input, 44)->Ok_0.1;
    string_then_stays(input, more, p3, 44);
    let p4 = then_byte(read_string(input, p3), input, 44)->Ok_0.1;
    string_then_stays(input, more, p4, 44);
    let p5 = then_byte(read_string(input, p4), input, 44)->Ok_0.1;
    list_then_stays::<String>(input, more, p5, 44);
    let p6 = then_byte(read_list::<String>(input, p5), input, 44)->Ok_0.1;
    list_then_stays::<(String, String)>(input, more, p6, 41);
}

/// A derivation that is cut off before its closing parenthesis is refused.
pub proof fn truncated_is_refused(input: Seq<u8>, n: int)
    requires
        read_whole(input) matches Ok((_, end)) && 0 <= n < end,
        n <= input.len(),
    ensures
        read_drv(input.take(n)) is Err,
{
    let cut = input.take(n);
    if read_drv(cut) is Ok {
        trailing_bytes_do_not_count(cut, input);
        assert(read_whole(cut)->Ok_0.1 <= cut.len());
    }
}

/// The input derivations of a parsed file are the map of some pairs.
pub proof fn inputs_are_collected(input: Seq<u8>)
    ensures
        read_drv(input) is Ok ==> exists|pairs: Seq<(Seq<char>, Seq<Seq<char>>)>|
            read_drv(input)->Ok_0.input_derivations == #[trigger] strmap::collected(pairs),
{
}

impl Derivation {
    /// Parses a `.drv` file.
    pub fn parse(input: &[u8]) -> (r: Result<Self, String>)
        ensures
            match r {
                Ok(d) => read_drv(input@) == Ok::<DrvView, Seq<char>>(d.deep_view()),
                Err(e) => read_drv(input@) == Err::<DrvView, Seq<char>>(e@),
            },
    {
        let mut p = Parser::new(input);
        p.expect_str("Derive(")?;
        let output_pairs = p.parse_list::<(String, Output)>()?;
        p.expect_byte(44)?;
        let drv_pairs = p.parse_list::<(String, Vec<String>)>()?;
        p.expect_byte(44)?;
        let input_sources = p.parse_list::<String>()?;
        p.expect_byte(44)?;
        let platform = p.parse_string()?;
        p.expect_byte(44)?;
        let builder = p.parse_string()?;
        p.expect_byte(44)?;
        let args = p.parse_list::<String>()?;
        p.expect_byte(44)?;
        let env_pairs = p.parse_list::<(String, String)>()?;
        p.expect_byte(41)?;
        let outputs = strmap::collect(output_pairs);
        let input_derivations = strmap::collect(drv_pairs);
        let env = strmap::collect(env_pairs);

        Ok(
            Derivation {
                outputs,
                input_derivations,
                input_sources,
                platform,
                builder,
                args,
                env,
            },
        )
    }

    /// The store paths of the outputs, in the order of the outputs' names.
    pub fn output_paths(&self) -> (r: Vec<&str>)
        ensures
            r.deep_view() == strmap::listing(self.outputs@).map_values(
                |e: (Seq<char>, OutputView)| e.1.path,
            ),
    {
        let ghost all = strmap::listing(self.outputs@);
        let mut v: Vec<&str> = Vec::new();
        let n: usize = self.outputs.len();
        for i in 0..n
            invariant
                n == all.len(),
                all == strmap::listing(self.outputs@),
                v@.len() == i,
                forall|j: int| 0 <= j < i ==> (#[trigger] v@[j])@ == all[j].1.path,
        {
            v.push(self.outputs.value(i).path.as_str());
        }
        assert(v.deep_view() =~= all.map_values(|e: (Seq<char>, OutputView)| e.1.path));
        v
    }

    /// The value of an environment variable.
    pub fn env_var(&self, key: &str) -> (r: Option<&str>)
        ensures
            match r {
                Some(v) => self.env@.contains_key(key@) && self.env@[key@] == v@,
                None => !self.env@.contains_key(key@),
            },
    {
        match self.env.get(key) {
            Some(v) => Some(v.as_str()),
            None => None,
        }
    }
}

/// The paths of a derivation are those of all its outputs, and no others.
pub proof fn all_output_paths_are_given(d: &Derivation, r: Vec<&str>, o: Seq<char>)
    requires
        call_ensures(Derivation::output_paths, (d,), r),
        d.outputs@.dom().finite(),
    ensures
        d.outputs@.contains_key(o) ==> r.deep_view().contains(d.outputs@[o].path),
        r.deep_view().len() == strmap::listing(d.outputs@).len(),
{
    let l = strmap::listing(d.outputs@);
    let f = |e: (Seq<char>, OutputView)| e.1.path;
    sorting::finite_map_is_listed(d.outputs@);
    if d.outputs@.contains_key(o) {
        assert(strmap::has_key(l, o));
        let i = choose|i: int| 0 <= i < l.len() && l[i].0 == o;
        strmap::ascending_index(l, i);
        assert(l.map_values(f)[i] == d.outputs@[o].path);
    }
}

} // verus!
