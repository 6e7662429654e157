use vstd::prelude::*;

use crate::json::text::{spec_json_bytes, spec_json_text_pretty, spec_parse_json, JsonError};
use crate::json::{
    arr_idx, index_focus, index_put, key_focus, key_from, key_index, key_put,
    json_wf, lemma_arr_idx_model, lemma_key_from_range, lemma_key_from_update,
    lemma_key_put_keeps_keys, lemma_object_key_model, object_key, option_seq, JsonModel,
    JsonValue,
};
use crate::lens::replaced_through;
use crate::prism::PrismExt;
use crate::traversal::{accepts_on, all_through, through, Traversal, TraversalExt};

verus! {

/// What a parser expected where it stopped.
#[derive(Debug, Clone, Copy, PartialEq, Eq, Structural)]
pub enum ErrorKind {
    /// A fixed text.
    Tag,
    /// At least one key character: an ASCII letter or digit, `_` or `-`.
    KeyChar,
    /// A decimal number that fits in a `u32`.
    Digit,
    /// At least one character.
    TakeWhile1,
}

/// A parse failure: the input that was left where the parser stopped, and what it expected.
#[derive(Debug, PartialEq, Eq)]
pub struct ParseError<'a> {
    pub input: &'a str,
    pub code: ErrorKind,
}

/// The result of a parser: the input that is left and the value, or the failure.
pub type IResult<'a, T> = Result<(&'a str, T), ParseError<'a>>;

/// `r` is the exec form of `expected`, the result of parsing `input`: on success the
/// number of characters consumed and the model of the value, on failure the
/// position (in characters) where the parser stopped and what it expected there.
pub open spec fn parsed<'a, T: DeepView>(
    input: &'a str,
    r: IResult<'a, T>,
    expected: Result<(int, T::V), (int, ErrorKind)>,
) -> bool {
    match expected {
        Ok((n, v)) => r matches Ok((rest, out)) && rest@ == input@.skip(n) && out.deep_view() == v,
        Err((p, kind)) => r matches Err(e) && e.input@ == input@.skip(p) && e.code == kind,
    }
}

/// Classes of characters that the parsers read runs of.
pub enum CharClass {
    /// Key characters: ASCII letters and digits, `_` and `-`.
    KeyChar,
    /// ASCII digits.
    Digit,
    /// Spaces and tabs.
    Space,
}

/// `c` belongs to `class`.
pub open spec fn in_class(class: CharClass, c: char) -> bool {
    match class {
        CharClass::KeyChar => ('a' <= c <= 'z') || ('A' <= c <= 'Z') || ('0' <= c <= '9') || c
            == '_' || c == '-',
        CharClass::Digit => '0' <= c <= '9',
        CharClass::Space => c == ' ' || c == '\t',
    }
}

/// The length of the longest run of characters of `class` in `s` starting at `i`.
pub open spec fn span(s: Seq<char>, i: int, class: CharClass) -> int
    decreases s.len() - i,
{
    if 0 <= i < s.len() && in_class(class, s[i]) {
        1 + span(s, i + 1, class)
    } else {
        0
    }
}

/// The value of a sequence of decimal digits.
pub open spec fn digits_value(s: Seq<char>) -> int
    decreases s.len(),
{
    if s.len() == 0 {
        0
    } else {
        digits_value(s.drop_last()) * 10 + (s.last() as int - '0' as int)
    }
}

/// A run lies inside the text, holds only characters of its class, and ends
/// at the end of the text or at a character outside the class.
pub proof fn lemma_span_bounds(s: Seq<char>, i: int, class: CharClass)
    requires
        0 <= i <= s.len(),
    ensures
        0 <= span(s, i, class) <= s.len() - i,
        forall|j: int| i <= j < i + span(s, i, class) ==> in_class(class, #[trigger] s[j]),
        i + span(s, i, class) < s.len() ==> !in_class(class, s[i + span(s, i, class)]),
    decreases s.len() - i,
{
    if i < s.len() && in_class(class, s[i]) {
        lemma_span_bounds(s, i + 1, class);
    }
}

proof fn lemma_digits_value_grows(s: Seq<char>, n: int)
    requires
        0 <= n <= s.len(),
        forall|j: int| 0 <= j < s.len() ==> '0' <= #[trigger] s[j] <= '9',
    ensures
        0 <= digits_value(s.take(n)) <= digits_value(s),
    decreases s.len(),
{
    if n < s.len() {
        let init = s.drop_last();
        assert(s.take(n) =~= init.take(n));
        assert forall|j: int| 0 <= j < init.len() implies '0' <= #[trigger] init[j] <= '9' by {
            assert(init[j] == s[j]);
        }
        lemma_digits_value_grows(init, n);
        assert(s.last() == s[s.len() - 1]);
    } else {
        assert(s.take(n) =~= s);
        if s.len() > 0 {
            let init = s.drop_last();
            assert forall|j: int| 0 <= j < init.len() implies '0' <= #[trigger] init[j] <= '9' by {
                assert(init[j] == s[j]);
            }
            lemma_digits_value_grows(init, init.len() as int);
            assert(init.take(init.len() as int) =~= init);
            assert(s.last() == s[s.len() - 1]);
        }
    }
}

fn char_in_class(class: &CharClass, c: char) -> (b: bool)
    ensures
        b == in_class(*class, c),
{
    match class {
        CharClass::KeyChar => ('a' <= c && c <= 'z') || ('A' <= c && c <= 'Z') || ('0' <= c && c
            <= '9') || c == '_' || c == '-',
        CharClass::Digit => '0' <= c && c <= '9',
        CharClass::Space => c == ' ' || c == '\t',
    }
}

/// The length of the run of characters of `class` in `input` starting at `start`.
fn count_while(input: &str, len: usize, start: usize, class: CharClass) -> (n: usize)
    requires
        len == input@.len(),
        start <= len,
    ensures
        n == span(input@, start as int, class),
        start + n <= len,
{
    let mut i = start;
    proof {
        lemma_span_bounds(input@, start as int, class);
    }
    while i < len && char_in_class(&class, input.get_char(i))
        invariant
            start <= i <= len,
            len == input@.len(),
            span(input@, start as int, class) == (i - start) + span(input@, i as int, class),
        decreases len - i,
    {
        i += 1;
    }
    i - start
}

/// `s` starts with `t`.
pub open spec fn has_prefix(s: Seq<char>, t: Seq<char>) -> bool {
    t.len() <= s.len() && s.take(t.len() as int) == t
}

fn starts_with(input: &str, len: usize, start: usize, t: &str) -> (b: bool)
    requires
        len == input@.len(),
        start <= len,
    ensures
        b == has_prefix(input@.skip(start as int), t@),
{
    let tl = t.unicode_len();
    if tl > len - start {
        return false;
    }
    let mut j: usize = 0;
    while j < tl
        invariant
            j <= tl,
            tl == t@.len(),
            start + tl <= len,
            len == input@.len(),
            forall|m: int| 0 <= m < j ==> input@[start + m] == t@[m],
        decreases tl - j,
    {
        if input.get_char(start + j) != t.get_char(j) {
            assert(input@.skip(start as int).take(tl as int)[j as int] != t@[j as int]);
            return false;
        }
        j += 1;
    }
    assert(input@.skip(start as int).take(tl as int) =~= t@);
    true
}

/// `input` from character `from` on.
fn rest_from<'a>(input: &'a str, len: usize, from: usize) -> (r: &'a str)
    requires
        len == input@.len(),
        from <= len,
    ensures
        r@ == input@.skip(from as int),
{
    let r = input.substring_char(from, len);
    assert(r@ =~= input@.skip(from as int));
    r
}

fn fail_at<'a, T>(input: &'a str, len: usize, at: usize, code: ErrorKind) -> (r: IResult<'a, T>)
    requires
        len == input@.len(),
        at <= len,
    ensures
        r matches Err(e) && e.input@ == input@.skip(at as int) && e.code == code,
{
    Err(ParseError { input: rest_from(input, len, at), code })
}

/// A type a path could be narrowed to.
#[derive(Debug, Clone, Copy, PartialEq, Eq, Structural)]
pub enum Cast {
    Bool,
    Object,
    Array,
    Number,
    String,
}

impl DeepView for Cast {
    type V = Cast;

    open spec fn deep_view(&self) -> Cast {
        *self
    }
}

/// One step of a path: an object key or an array position.
#[derive(Debug, Clone, PartialEq)]
pub enum Token {
    Key(String),
    Idx(usize),
}

/// The model of a path step.
pub enum TokenModel {
    Key(Seq<char>),
    Idx(usize),
}

impl DeepView for Token {
    type V = TokenModel;

    open spec fn deep_view(&self) -> TokenModel {
        match self {
            Token::Key(k) => TokenModel::Key(k@),
            Token::Idx(i) => TokenModel::Idx(*i),
        }
    }
}

/// The text after `=` in an expression, to be read as a JSON value.
#[derive(Debug, Clone, PartialEq)]
pub struct Setter {
    possible_js_value: String,
}

impl DeepView for Setter {
    type V = Seq<char>;

    closed spec fn deep_view(&self) -> Seq<char> {
        self.possible_js_value@
    }
}

impl Setter {
    /// The text of the value.
    pub fn possible_js_value(&self) -> (r: &String)
        ensures
            r@ == self.deep_view(),
    {
        &self.possible_js_value
    }
}

/// `.` followed by a run of key characters (ASCII letters and digits, `_`
/// and `-`), which is the key.
pub open spec fn spec_obj_key(s: Seq<char>) -> Result<(int, Seq<char>), (int, ErrorKind)> {
    if s.len() >= 1 && s[0] == '.' {
        let n = span(s, 1, CharClass::KeyChar);
        if n == 0 {
            Err((1, ErrorKind::KeyChar))
        } else {
            Ok((1 + n, s.subrange(1, 1 + n)))
        }
    } else {
        Err((0, ErrorKind::Tag))
    }
}

/// A run of decimal digits starting at `p` whose value fits in a `u32`; the
/// result is where the run ends and the value.
pub open spec fn spec_u32_at(s: Seq<char>, p: int) -> Result<(int, int), (int, ErrorKind)> {
    let n = span(s, p, CharClass::Digit);
    if n == 0 {
        Err((p, ErrorKind::Digit))
    } else if digits_value(s.subrange(p, p + n)) > u32::MAX {
        Err((p, ErrorKind::Digit))
    } else {
        Ok((p + n, digits_value(s.subrange(p, p + n))))
    }
}

/// `[`, a `u32` in decimal, `]`.
pub open spec fn spec_array_idx(s: Seq<char>) -> Result<(int, usize), (int, ErrorKind)> {
    if s.len() >= 1 && s[0] == '[' {
        match spec_u32_at(s, 1) {
            Err(e) => Err(e),
            Ok((e, v)) => if e < s.len() && s[e] == ']' {
                Ok((e + 1, v as usize))
            } else {
                Err((e, ErrorKind::Tag))
            },
        }
    } else {
        Err((0, ErrorKind::Tag))
    }
}

/// `=`, spaces and tabs, then at least one character: all the rest is the value.
pub open spec fn spec_setter(s: Seq<char>) -> Result<(int, Seq<char>), (int, ErrorKind)> {
    if s.len() >= 1 && s[0] == '=' {
        let p = 1 + span(s, 1, CharClass::Space);
        if p >= s.len() {
            Err((p, ErrorKind::TakeWhile1))
        } else {
            Ok((s.len() as int, s.skip(p)))
        }
    } else {
        Err((0, ErrorKind::Tag))
    }
}

/// An array position, else an object key.
pub open spec fn spec_token(s: Seq<char>) -> Result<(int, TokenModel), (int, ErrorKind)> {
    match spec_array_idx(s) {
        Ok((n, v)) => Ok((n, TokenModel::Idx(v))),
        Err(_) => match spec_obj_key(s) {
            Ok((n, k)) => Ok((n, TokenModel::Key(k))),
            Err(e) => Err(e),
        },
    }
}

/// The name of a type, the first that the input starts with.
pub open spec fn spec_cast_type(s: Seq<char>) -> Result<(int, Cast), (int, ErrorKind)> {
    if has_prefix(s, seq!['b', 'o', 'o', 'l']) {
        Ok((4, Cast::Bool))
    } else if has_prefix(s, seq!['o', 'b', 'j', 'e', 'c', 't']) {
        Ok((6, Cast::Object))
    } else if has_prefix(s, seq!['a', 'r', 'r', 'a', 'y']) {
        Ok((5, Cast::Array))
    } else if has_prefix(s, seq!['n', 'u', 'm', 'b', 'e', 'r']) {
        Ok((6, Cast::Number))
    } else if has_prefix(s, seq!['s', 't', 'r', 'i', 'n', 'g']) {
        Ok((6, Cast::String))
    } else {
        Err((0, ErrorKind::Tag))
    }
}

/// `as `, then the name of a type.
pub open spec fn spec_cast(s: Seq<char>) -> Result<(int, Cast), (int, ErrorKind)> {
    if has_prefix(s, seq!['a', 's', ' ']) {
        match spec_cast_type(s.skip(3)) {
            Ok((n, c)) => Ok((3 + n, c)),
            Err((p, k)) => Err((3 + p, k)),
        }
    } else {
        Err((0, ErrorKind::Tag))
    }
}

/// Reads `.key`.
pub fn obj_key_parser<'a>(input: &'a str) -> (r: IResult<'a, String>)
    ensures
        parsed(input, r, spec_obj_key(input@)),
{
    let len = input.unicode_len();
    if !(len >= 1 && input.get_char(0) == '.') {
        return fail_at(input, len, 0, ErrorKind::Tag);
    }
    let n = count_while(input, len, 1, CharClass::KeyChar);
    if n == 0 {
        return fail_at(input, len, 1, ErrorKind::KeyChar);
    }
    let key = input.substring_char(1, 1 + n).to_owned();
    Ok((rest_from(input, len, 1 + n), key))
}

/// Reads a `u32` in decimal starting at character `start`; on success, where it ends and its value.
fn u32_at(input: &str, len: usize, start: usize) -> (r: Option<(usize, u32)>)
    requires
        len == input@.len(),
        start <= len,
    ensures
        match spec_u32_at(input@, start as int) {
            Ok((e, v)) => r == Some((e as usize, v as u32)) && 0 <= v <= u32::MAX && start < e
                <= len,
            Err(_) => r is None,
        },
{
    let ghost s = input@;
    let n = count_while(input, len, start, CharClass::Digit);
    proof {
        lemma_span_bounds(s, start as int, CharClass::Digit);
    }
    if n == 0 {
        return None;
    }
    let ghost run = s.subrange(start as int, start + n);
    assert forall|j: int| 0 <= j < run.len() implies '0' <= #[trigger] run[j] <= '9' by {
        assert(run[j] == s[start + j]);
        assert(in_class(CharClass::Digit, s[start + j]));
    }
    let mut value: u32 = 0;
    let mut i = start;
    while i < start + n
        invariant
            start <= i <= start + n,
            start + n <= len,
            len == s.len(),
            s == input@,
            run == s.subrange(start as int, start + n),
            n == span(s, start as int, CharClass::Digit),
            n > 0,
            forall|j: int| 0 <= j < run.len() ==> '0' <= #[trigger] run[j] <= '9',
            value == digits_value(run.take(i - start)),
        decreases start + n - i,
    {
        let c = input.get_char(i);
        assert(c == run[i - start]);
        assert('0' <= c <= '9');
        let d = (c as u32) - ('0' as u32);
        assert(d == c as int - '0' as int);
        let ghost next = run.take(i - start + 1);
        assert(next.drop_last() =~= run.take(i - start));
        assert(next.last() == c);
        assert(digits_value(next) == value * 10 + d);
        match value.checked_mul(10) {
            None => {
                proof {
                    lemma_digits_value_grows(run, i - start + 1);
                    assert(digits_value(run) > u32::MAX);
                    assert(spec_u32_at(input@, start as int) is Err);
                }
                return None;
            },
            Some(v) => match v.checked_add(d) {
                None => {
                    proof {
                        lemma_digits_value_grows(run, i - start + 1);
                        assert(digits_value(run) > u32::MAX);
                    }
                    return None;
                },
                Some(v2) => {
                    value = v2;
                },
            },
        }
        i += 1;
    }
    assert(run.take(n as int) =~= run);
    proof {
        lemma_digits_value_grows(run, 0);
    }
    Some((start + n, value))
}

/// Reads `[n]`.
pub fn array_idx_parser<'a>(input: &'a str) -> (r: IResult<'a, usize>)
    ensures
        parsed(input, r, spec_array_idx(input@)),
{
    let len = input.unicode_len();
    if !(len >= 1 && input.get_char(0) == '[') {
        return fail_at(input, len, 0, ErrorKind::Tag);
    }
    proof {
        lemma_span_bounds(input@, 1, CharClass::Digit);
    }
    match u32_at(input, len, 1) {
        None => fail_at(input, len, 1, ErrorKind::Digit),
        Some((e, v)) => {
            if e < len && input.get_char(e) == ']' {
                let r: IResult<'a, usize> = Ok((rest_from(input, len, e + 1), v as usize));
                proof {
                    let sv = spec_u32_at(input@, 1);
                    assert(sv is Ok);
                    let (se, svv) = sv->Ok_0;
                    assert(se == e);
                    assert(0 <= svv <= u32::MAX);
                    assert(v == svv);
                }
                assert(spec_array_idx(input@) == Ok::<(int, usize), (int, ErrorKind)>(((e + 1) as int, v as usize)));
                r
            } else {
                let r = fail_at(input, len, e, ErrorKind::Tag);
                assert(spec_array_idx(input@) == Err::<(int, usize), (int, ErrorKind)>((e as int, ErrorKind::Tag)));
                r
            }
        },
    }
}

/// Reads a path step: `[n]`, else `.key`.
pub fn token_parser<'a>(input: &'a str) -> (r: IResult<'a, Token>)
    ensures
        parsed(input, r, spec_token(input@)),
{
    match array_idx_parser(input) {
        Ok((rest, i)) => Ok((rest, Token::Idx(i))),
        Err(_) => match obj_key_parser(input) {
            Ok((rest, k)) => Ok((rest, Token::Key(k))),
            Err(e) => Err(e),
        },
    }
}

/// Reads `= value`: the value is all the rest of the input.
pub fn setter_parser<'a>(input: &'a str) -> (r: IResult<'a, Setter>)
    ensures
        parsed(input, r, spec_setter(input@)),
{
    let len = input.unicode_len();
    if !(len >= 1 && input.get_char(0) == '=') {
        return fail_at(input, len, 0, ErrorKind::Tag);
    }
    let n = count_while(input, len, 1, CharClass::Space);
    let p = 1 + n;
    if p >= len {
        return fail_at(input, len, p, ErrorKind::TakeWhile1);
    }
    let value = rest_from(input, len, p).to_owned();
    Ok((rest_from(input, len, len), Setter { possible_js_value: value }))
}

/// Reads the name of a type.
pub fn cast_type_parser<'a>(input: &'a str) -> (r: IResult<'a, Cast>)
    ensures
        parsed(input, r, spec_cast_type(input@)),
{
    let len = input.unicode_len();
    proof {
        reveal_strlit("bool");
        reveal_strlit("object");
        reveal_strlit("array");
        reveal_strlit("number");
        reveal_strlit("string");
        assert("bool"@ =~= seq!['b', 'o', 'o', 'l']);
        assert("object"@ =~= seq!['o', 'b', 'j', 'e', 'c', 't']);
        assert("array"@ =~= seq!['a', 'r', 'r', 'a', 'y']);
        assert("number"@ =~= seq!['n', 'u', 'm', 'b', 'e', 'r']);
        assert("string"@ =~= seq!['s', 't', 'r', 'i', 'n', 'g']);
        assert(input@.skip(0) =~= input@);
    }
    if starts_with(input, len, 0, "bool") {
        Ok((rest_from(input, len, 4), Cast::Bool))
    } else if starts_with(input, len, 0, "object") {
        Ok((rest_from(input, len, 6), Cast::Object))
    } else if starts_with(input, len, 0, "array") {
        Ok((rest_from(input, len, 5), Cast::Array))
    } else if starts_with(input, len, 0, "number") {
        Ok((rest_from(input, len, 6), Cast::Number))
    } else if starts_with(input, len, 0, "string") {
        Ok((rest_from(input, len, 6), Cast::String))
    } else {
        fail_at(input, len, 0, ErrorKind::Tag)
    }
}

/// Reads `as ` and the name of a type.
pub fn cast_parser<'a>(input: &'a str) -> (r: IResult<'a, Cast>)
    ensures
        parsed(input, r, spec_cast(input@)),
{
    let len = input.unicode_len();
    proof {
        reveal_strlit("as ");
        assert("as "@ =~= seq!['a', 's', ' ']);
        assert(input@.skip(0) =~= input@);
    }
    if !starts_with(input, len, 0, "as ") {
        return fail_at(input, len, 0, ErrorKind::Tag);
    }
    let rest = rest_from(input, len, 3);
    match cast_type_parser(rest) {
        Ok((after, c)) => {
            assert(after@ =~= input@.skip(3 + spec_cast_type(input@.skip(3))->Ok_0.0));
            Ok((after, c))
        },
        Err(e) => {
            assert(e.input@ =~= input@.skip(3 + spec_cast_type(input@.skip(3))->Err_0.0));
            Err(e)
        },
    }
}

/// An expression as read: a path, and the text of a value to put there if
/// it is a setter.
#[derive(Debug, Clone, PartialEq)]
pub enum RawExpression {
    Getter(Vec<Token>),
    Setter(Vec<Token>, Setter),
}

/// The model of an expression as read.
pub enum RawModel {
    Getter(Seq<TokenModel>),
    Setter(Seq<TokenModel>, Seq<char>),
}

impl DeepView for RawExpression {
    type V = RawModel;

    open spec fn deep_view(&self) -> RawModel {
        match self {
            RawExpression::Getter(ts) => RawModel::Getter(ts.deep_view()),
            RawExpression::Setter(ts, s) => RawModel::Setter(ts.deep_view(), s.deep_view()),
        }
    }
}

/// A path step is at least two characters long.
pub proof fn lemma_token_consumes(s: Seq<char>)
    ensures
        spec_token(s) matches Ok((n, _)) ==> 2 <= n <= s.len(),
{
    if s.len() >= 1 {
        lemma_span_bounds(s, 1, CharClass::Digit);
        lemma_span_bounds(s, 1, CharClass::KeyChar);
    }
}

/// Path steps from position `i` until a setter or the end of the input.
pub open spec fn spec_many_till(s: Seq<char>, i: int) -> Result<
    (Seq<TokenModel>, Option<Seq<char>>),
    (int, ErrorKind),
>
    decreases s.len() - i,
{
    if 0 <= i <= s.len() {
        let rest = s.skip(i);
        match spec_setter(rest) {
            Ok((_, v)) => Ok((Seq::empty(), Some(v))),
            Err(_) => if i == s.len() {
                Ok((Seq::empty(), None))
            } else {
                match spec_token(rest) {
                    Err((p, k)) => Err((i + p, k)),
                    Ok((n, t)) => {
                        proof {
                            lemma_token_consumes(rest);
                        }
                        match spec_many_till(s, i + n) {
                            Ok((ts, o)) => Ok((seq![t] + ts, o)),
                            Err(e) => Err(e),
                        }
                    },
                }
            },
        }
    } else {
        Err((i, ErrorKind::Tag))
    }
}

/// Path steps, then either a setter or the end of the input.
pub open spec fn spec_tokens(s: Seq<char>) -> Result<(int, RawModel), (int, ErrorKind)> {
    match spec_many_till(s, 0) {
        Ok((ts, Some(v))) => Ok((s.len() as int, RawModel::Setter(ts, v))),
        Ok((ts, None)) => Ok((s.len() as int, RawModel::Getter(ts))),
        Err(e) => Err(e),
    }
}

/// `ts` put in front of the path steps of `r`.
pub open spec fn prepend_steps<O>(ts: Seq<TokenModel>, r: Result<(Seq<TokenModel>, O), (int, ErrorKind)>) -> Result<
    (Seq<TokenModel>, O),
    (int, ErrorKind),
> {
    match r {
        Ok((more, o)) => Ok((ts + more, o)),
        Err(e) => Err(e),
    }
}

/// Reads path steps up to a setter or the end of the input.
pub fn tokens_parser<'a>(input: &'a str) -> (r: IResult<'a, RawExpression>)
    ensures
        parsed(input, r, spec_tokens(input@)),
{
    let ghost s = input@;
    let len = input.unicode_len();
    let mut ts: Vec<Token> = Vec::new();
    let mut cur: &'a str = input;
    let mut i: usize = 0;
    assert(s.skip(0) =~= s);
    assert(prepend_steps(Seq::<TokenModel>::empty(), spec_many_till(s, 0)) =~= spec_many_till(s, 0)) by {
        match spec_many_till(s, 0) {
            Ok((more, o)) => {
                assert(Seq::<TokenModel>::empty() + more =~= more);
            },
            Err(_) => {},
        }
    }
    loop
        invariant
            s == input@,
            len == s.len(),
            i <= len,
            cur@ == s.skip(i as int),
            spec_many_till(s, 0) == prepend_steps(ts.deep_view(), spec_many_till(s, i as int)),
        decreases len - i,
    {
        match setter_parser(cur) {
            Ok((rest, setter)) => {
                assert(rest@ =~= s.skip(len as int));
                return Ok((rest, RawExpression::Setter(ts, setter)));
            },
            Err(_) => {},
        }
        if i == len {
            assert(ts.deep_view() + Seq::<TokenModel>::empty() =~= ts.deep_view());
            return Ok((cur, RawExpression::Getter(ts)));
        }
        match token_parser(cur) {
            Err(e) => {
                assert(e.input@ =~= s.skip(i + spec_token(cur@)->Err_0.0));
                return Err(e);
            },
            Ok((rest, t)) => {
                proof {
                    lemma_token_consumes(cur@);
                }
                let ghost n = spec_token(cur@)->Ok_0.0;
                let ghost old_ts = ts.deep_view();
                let ghost tm = t.deep_view();
                ts.push(t);
                assert(ts.deep_view() =~= old_ts.push(tm));
                assert(rest@ =~= s.skip(i + n));
                let ghost next = spec_many_till(s, i + n);
                assert(prepend_steps(old_ts, prepend_steps(seq![tm], next)) == prepend_steps(ts.deep_view(), next)) by {
                    match next {
                        Ok((more, o)) => {
                            assert(old_ts + (seq![tm] + more) =~= ts.deep_view() + more);
                        },
                        Err(_) => {},
                    }
                }
                cur = rest;
                i = len - rest.unicode_len();
            },
        }
    }
}

/// The path steps read from position `i` on, and where they end.
pub open spec fn spec_token_run(s: Seq<char>, i: int) -> (Seq<TokenModel>, int)
    decreases s.len() - i,
{
    if 0 <= i <= s.len() {
        match spec_token(s.skip(i)) {
            Ok((n, t)) => {
                proof {
                    lemma_token_consumes(s.skip(i));
                }
                let (ts, e) = spec_token_run(s, i + n);
                (seq![t] + ts, e)
            },
            Err(_) => (Seq::empty(), i),
        }
    } else {
        (Seq::empty(), i)
    }
}

/// At least one path step; then, after spaces and tabs, a setter if there is
/// one (else what follows the steps is left).
pub open spec fn spec_tokens_2(s: Seq<char>) -> Result<(int, RawModel), (int, ErrorKind)> {
    match spec_token(s) {
        Err(e) => Err(e),
        Ok(_) => {
            let (ts, e) = spec_token_run(s, 0);
            let p = e + span(s, e, CharClass::Space);
            match spec_setter(s.skip(p)) {
                Ok((_, v)) => Ok((s.len() as int, RawModel::Setter(ts, v))),
                Err(_) => Ok((e, RawModel::Getter(ts))),
            }
        },
    }
}

proof fn lemma_token_run_bounds(s: Seq<char>, i: int)
    requires
        0 <= i <= s.len(),
    ensures
        i <= spec_token_run(s, i).1 <= s.len(),
    decreases s.len() - i,
{
    match spec_token(s.skip(i)) {
        Ok((n, t)) => {
            lemma_token_consumes(s.skip(i));
            lemma_token_run_bounds(s, i + n);
        },
        Err(_) => {},
    }
}

/// Reads at least one path step, then an optional setter.
pub fn tokens_parser_2<'a>(input: &'a str) -> (r: IResult<'a, RawExpression>)
    ensures
        parsed(input, r, spec_tokens_2(input@)),
{
    let ghost s = input@;
    let len = input.unicode_len();
    assert(s.skip(0) =~= s);
    match token_parser(input) {
        Err(e) => {
            return Err(e);
        },
        Ok(_) => {},
    }
    let mut ts: Vec<Token> = Vec::new();
    let mut cur: &'a str = input;
    let mut i: usize = 0;
    loop
        invariant
            s == input@,
            len == s.len(),
            i <= len,
            cur@ == s.skip(i as int),
            spec_token_run(s, 0) == (ts.deep_view() + spec_token_run(s, i as int).0, spec_token_run(s, i as int).1),
        ensures
            s == input@,
            len == s.len(),
            i <= len,
            cur@ == s.skip(i as int),
            spec_token_run(s, 0) == (ts.deep_view() + spec_token_run(s, i as int).0, spec_token_run(s, i as int).1),
            spec_token_run(s, i as int) == (Seq::<TokenModel>::empty(), i as int),
        decreases len - i,
    {
        match token_parser(cur) {
            Err(_) => {
                break;
            },
            Ok((rest, t)) => {
                proof {
                    lemma_token_consumes(cur@);
                }
                let ghost n = spec_token(cur@)->Ok_0.0;
                let ghost old_ts = ts.deep_view();
                let ghost tm = t.deep_view();
                ts.push(t);
                assert(ts.deep_view() =~= old_ts.push(tm));
                assert(rest@ =~= s.skip(i + n));
                assert(old_ts + (seq![tm] + spec_token_run(s, i + n).0) =~= ts.deep_view() + spec_token_run(s, i + n).0);
                cur = rest;
                i = len - rest.unicode_len();
            },
        }
    }
    assert(spec_token_run(s, i as int) == (Seq::<TokenModel>::empty(), i as int));
    assert(ts.deep_view() + Seq::<TokenModel>::empty() =~= ts.deep_view());
    let sp = count_while(input, len, i, CharClass::Space);
    let after = rest_from(input, len, i + sp);
    match setter_parser(after) {
        Ok((rest, setter)) => {
            assert(rest@ =~= s.skip(len as int));
            Ok((rest, RawExpression::Setter(ts, setter)))
        },
        Err(_) => Ok((cur, RawExpression::Getter(ts))),
    }
}

/// What one path step focuses on in `a`.
pub open spec fn step_focus(t: TokenModel, a: JsonModel) -> Option<JsonModel> {
    match t {
        TokenModel::Key(k) => key_focus(a, k),
        TokenModel::Idx(i) => index_focus(a, i),
    }
}

/// `a` with what one path step focuses on replaced by `v`.
pub open spec fn step_put(t: TokenModel, a: JsonModel, v: JsonModel) -> JsonModel {
    match t {
        TokenModel::Key(k) => key_put(a, k, v),
        TokenModel::Idx(i) => index_put(a, i, v),
    }
}

/// What a path focuses on in `a`, if every step finds something.
pub open spec fn path_focus(p: Seq<TokenModel>, a: JsonModel) -> Option<JsonModel>
    decreases p.len(),
{
    if p.len() == 0 {
        Some(a)
    } else {
        match step_focus(p[0], a) {
            Some(x) => path_focus(p.drop_first(), x),
            None => None,
        }
    }
}

/// `a` with what a path focuses on replaced by `v`; `a` itself where the path
/// finds nothing.
pub open spec fn path_put(p: Seq<TokenModel>, a: JsonModel, v: JsonModel) -> JsonModel
    decreases p.len(),
{
    if p.len() == 0 {
        v
    } else {
        match step_focus(p[0], a) {
            Some(x) => step_put(p[0], a, path_put(p.drop_first(), x, v)),
            None => a,
        }
    }
}

/// A path into JSON values: a prism made of object keys and array positions.
pub struct Selector {
    tokens: Vec<Token>,
}

impl Selector {
    /// The steps of the path.
    pub closed spec fn path(&self) -> Seq<TokenModel> {
        self.tokens.deep_view()
    }

    /// The empty path, which focuses on the whole value.
    pub fn new() -> (r: Selector)
        ensures
            r.path() == Seq::<TokenModel>::empty(),
    {
        let r = Selector { tokens: Vec::new() };
        assert(r.path() =~= Seq::<TokenModel>::empty());
        r
    }

    /// This path followed by `next`.
    pub fn join(self, next: Selector) -> (r: Selector)
        ensures
            r.path() == self.path() + next.path(),
    {
        let mut tokens = self.tokens;
        let mut more = next.tokens;
        let ghost a = tokens.deep_view();
        let ghost b = more.deep_view();
        tokens.append(&mut more);
        let r = Selector { tokens };
        assert(r.path() =~= a + b);
        r
    }

    fn focus_from(&self, i: usize, a: JsonValue) -> (r: Option<JsonValue>)
        requires
            i <= self.tokens.len(),
        ensures
            r.deep_view() == path_focus(self.path().skip(i as int), a.deep_view()),
        decreases self.tokens.len() - i,
    {
        let ghost p = self.path().skip(i as int);
        if i == self.tokens.len() {
            assert(p =~= Seq::<TokenModel>::empty());
            return Some(a);
        }
        assert(p[0] == self.tokens[i as int].deep_view());
        assert(p.drop_first() =~= self.path().skip(i + 1));
        let ghost ag = a.deep_view();
        let step = match &self.tokens[i] {
            Token::Key(k) => {
                let optic = object_key(k.as_str());
                proof {
                    lemma_object_key_model(optic, ag, ag);
                }
                optic.t_to_opt(a)
            },
            Token::Idx(x) => {
                let optic = arr_idx(*x);
                proof {
                    lemma_arr_idx_model(optic, ag, ag);
                }
                optic.t_to_opt(a)
            },
        };
        assert(step.deep_view() == step_focus(p[0], ag));
        match step {
            Some(x) => self.focus_from(i + 1, x),
            None => None,
        }
    }

    /// What the path focuses on in `a`, if every step finds something.
    pub fn t_to_opt(&self, a: JsonValue) -> (r: Option<JsonValue>)
        ensures
            r.deep_view() == path_focus(self.path(), a.deep_view()),
    {
        assert(self.path().skip(0) =~= self.path());
        self.focus_from(0, a)
    }
}

/// Where a path finds nothing, what is put there does not matter.
pub proof fn lemma_path_put_unfocused(p: Seq<TokenModel>, a: JsonModel, v1: JsonModel, v2: JsonModel)
    requires
        path_focus(p, a) is None,
    ensures
        path_put(p, a, v1) == path_put(p, a, v2),
    decreases p.len(),
{
    if p.len() > 0 {
        match step_focus(p[0], a) {
            Some(x) => {
                lemma_path_put_unfocused(p.drop_first(), x, v1, v2);
            },
            None => {},
        }
    }
}

impl Selector {
    fn over_from<F: Fn(JsonValue) -> JsonValue>(&self, i: usize, a: JsonValue, f: &F) -> (r:
        JsonValue)
        requires
            i <= self.tokens.len(),
            path_focus(self.path().skip(i as int), a.deep_view()) matches Some(x) ==> accepts_on(
                *f,
                seq![x],
            ),
        ensures
            match path_focus(self.path().skip(i as int), a.deep_view()) {
                None => r.deep_view() == path_put(
                    self.path().skip(i as int),
                    a.deep_view(),
                    a.deep_view(),
                ),
                Some(x) => replaced_through(
                    *f,
                    x,
                    |v: JsonModel| path_put(self.path().skip(i as int), a.deep_view(), v),
                    r.deep_view(),
                ),
            },
        decreases self.tokens.len() - i,
    {
        let ghost p = self.path().skip(i as int);
        let ghost ag = a.deep_view();
        if i == self.tokens.len() {
            assert(p =~= Seq::<TokenModel>::empty());
            assert(seq![ag][0] == ag);
            assert(seq![ag].contains(a.deep_view()));
            let ghost a0 = a;
            let r = f(a);
            assert(replaced_through(*f, ag, |v: JsonModel| path_put(p, ag, v), r.deep_view())) by {
                assert(path_put(p, ag, r.deep_view()) == r.deep_view());
                assert(call_ensures(*f, (a0,), r));
            }
            return r;
        }
        assert(p[0] == self.tokens[i as int].deep_view());
        let ghost p1 = self.path().skip(i + 1);
        assert(p.drop_first() =~= p1);
        let inner = |x: JsonValue| -> (y: JsonValue)
            requires
                path_focus(self.path().skip(i + 1), x.deep_view()) matches Some(z) ==> accepts_on::<
                    JsonValue,
                    JsonValue,
                    &F,
                >(f, seq![z]),
            ensures
                match path_focus(self.path().skip(i + 1), x.deep_view()) {
                    None => y.deep_view() == path_put(
                        self.path().skip(i + 1),
                        x.deep_view(),
                        x.deep_view(),
                    ),
                    Some(z) => replaced_through(
                        *f,
                        z,
                        |v: JsonModel| path_put(self.path().skip(i + 1), x.deep_view(), v),
                        y.deep_view(),
                    ),
                },
            { self.over_from(i + 1, x, f) };
        let ghost t = p[0];
        let ghost mut outs_g: Seq<JsonModel> = Seq::empty();
        let r = match &self.tokens[i] {
            Token::Key(k) => {
                let optic = object_key(k.as_str());
                proof {
                    lemma_object_key_model(optic, ag, ag);
                }
                assert forall|b: JsonValue| optic.foci(ag).contains(b.deep_view()) implies #[trigger]
                    call_requires(inner, (b,)) by {
                    assert(optic.foci(ag)[0] == b.deep_view());
                }
                let r = TraversalExt::over(&optic, a, inner);
                proof {
                    let outs = choose|outs: Seq<JsonModel>|
                        all_through(inner, optic.foci(ag), outs) && r.deep_view() == optic.refill(ag, outs);
                    assert(optic.foci(ag) == option_seq(step_focus(t, ag)));
                    match step_focus(t, ag) {
                        Some(x) => {
                            assert(optic.foci(ag)[0] == x);
                            assert(through(inner, x, outs[0]));
                            lemma_object_key_model(optic, ag, outs[0]);
                            assert(outs =~= seq![outs[0]]);
                            assert(r.deep_view() == step_put(t, ag, outs[0]));
                        },
                        None => {
                            assert(outs =~= Seq::<JsonModel>::empty());
                            assert(r.deep_view() == ag);
                        },
                    }
                    outs_g = outs;
                }
                r
            },
            Token::Idx(x) => {
                let optic = arr_idx(*x);
                proof {
                    lemma_arr_idx_model(optic, ag, ag);
                }
                assert forall|b: JsonValue| optic.foci(ag).contains(b.deep_view()) implies #[trigger]
                    call_requires(inner, (b,)) by {
                    assert(optic.foci(ag)[0] == b.deep_view());
                }
                let r = TraversalExt::over(&optic, a, inner);
                proof {
                    let outs = choose|outs: Seq<JsonModel>|
                        all_through(inner, optic.foci(ag), outs) && r.deep_view() == optic.refill(ag, outs);
                    assert(optic.foci(ag) == option_seq(step_focus(t, ag)));
                    match step_focus(t, ag) {
                        Some(x) => {
                            assert(optic.foci(ag)[0] == x);
                            assert(through(inner, x, outs[0]));
                            lemma_arr_idx_model(optic, ag, outs[0]);
                            assert(outs =~= seq![outs[0]]);
                            assert(r.deep_view() == step_put(t, ag, outs[0]));
                        },
                        None => {
                            assert(outs =~= Seq::<JsonModel>::empty());
                            assert(r.deep_view() == ag);
                        },
                    }
                    outs_g = outs;
                }
                r
            },
        };
        proof {
            match step_focus(t, ag) {
                Some(x) => {
                    let o = outs_g[0];
                    assert(through(inner, x, o) && r.deep_view() == step_put(t, ag, o));
                    let (b, c) = choose|b: JsonValue, c: JsonValue|
                        b.deep_view() == x && call_ensures(inner, (b,), c) && c.deep_view() == o;
                    match path_focus(p1, x) {
                        Some(z) => {
                            let (b2, c2) = choose|b2: JsonValue, c2: JsonValue|
                                b2.deep_view() == z && call_ensures(*f, (b2,), c2) && o == path_put(p1, x, c2.deep_view());
                            assert(path_put(p, ag, c2.deep_view()) == r.deep_view());
                        },
                        None => {
                            lemma_path_put_unfocused(p1, x, x, ag);
                        },
                    }
                },
                None => {},
            }
        }
        r
    }

    /// `a` with what the path focuses on replaced by what `f` returns for it;
    /// `a` unchanged where the path finds nothing.
    pub fn over<F: Fn(JsonValue) -> JsonValue>(&self, a: JsonValue, f: &F) -> (r: JsonValue)
        requires
            path_focus(self.path(), a.deep_view()) matches Some(x) ==> accepts_on(*f, seq![x]),
        ensures
            match path_focus(self.path(), a.deep_view()) {
                None => r.deep_view() == a.deep_view(),
                Some(x) => replaced_through(
                    *f,
                    x,
                    |v: JsonModel| path_put(self.path(), a.deep_view(), v),
                    r.deep_view(),
                ),
            },
    {
        assert(self.path().skip(0) =~= self.path());
        let ghost ag = a.deep_view();
        let r = self.over_from(0, a, f);
        proof {
            if path_focus(self.path(), ag) is None {
                lemma_path_put_unfocused_same(self.path(), ag, ag);
            }
        }
        r
    }
}

impl Token {
    /// The path of this one step.
    pub fn into_selector(self) -> (r: Selector)
        ensures
            r.path() == seq![self.deep_view()],
    {
        let mut tokens = Vec::new();
        tokens.push(self);
        let r = Selector { tokens };
        assert(r.path() =~= seq![self.deep_view()]);
        r
    }
}

/// A compiled expression: read what a path focuses on, or put a value there.
pub enum Expression {
    Getter(Selector),
    Setter(Selector, JsonValue),
}

impl RawExpression {
    /// Builds the path from the steps, and reads the value of a setter as JSON text.
    ///
    /// A getter always compiles; a setter compiles when its text is JSON, and
    /// fails with the reason `serde_json` gives otherwise.
    pub fn compile(self) -> (r: Result<Expression, JsonError>)
        ensures
            match self.deep_view() {
                RawModel::Getter(ts) => r matches Ok(Expression::Getter(sel)) && sel.path() == ts,
                RawModel::Setter(ts, text) => match spec_parse_json(text) {
                    Some(v) => r matches Ok(Expression::Setter(sel, w)) && sel.path() == ts
                        && w.deep_view() == v,
                    None => r is Err,
                },
            },
    {
        let mut sel = Selector::new();
        match self {
            RawExpression::Getter(tokens) => {
                let ghost ts = tokens.deep_view();
                for token in it: tokens.into_iter()
                    invariant
                        it.seq().map_values(|t: Token| t.deep_view()) =~= ts,
                        sel.path() =~= ts.take(it.index() as int),
                {
                    let ghost i = it.index();
                    sel = sel.join(token.into_selector());
                    assert(sel.path() =~= ts.take(i + 1));
                }
                Ok(Expression::Getter(sel))
            },
            RawExpression::Setter(tokens, value) => {
                let ghost ts = tokens.deep_view();
                for token in it: tokens.into_iter()
                    invariant
                        it.seq().map_values(|t: Token| t.deep_view()) =~= ts,
                        sel.path() =~= ts.take(it.index() as int),
                {
                    let ghost i = it.index();
                    sel = sel.join(token.into_selector());
                    assert(sel.path() =~= ts.take(i + 1));
                }
                match JsonValue::from_json_text(value.possible_js_value.as_str()) {
                    Ok(v) => Ok(Expression::Setter(sel, v)),
                    Err(e) => Err(e),
                }
            },
        }
    }
}

/// What running an expression on a JSON value gives.
pub enum Outcome {
    /// A getter found this value.
    Print(JsonValue),
    /// A setter found its place: this is the updated value.
    Write(JsonValue),
    /// The path found nothing.
    Failure,
}

impl Expression {
    /// Runs the expression on `target`.
    ///
    /// A getter gives what the path focuses on; a setter gives `target` with
    /// the value put where the path focuses. Either fails when the path finds nothing.
    pub fn evaluate(self, target: JsonValue) -> (r: Outcome)
        ensures
            match self {
                Expression::Getter(sel) => match path_focus(sel.path(), target.deep_view()) {
                    Some(x) => r matches Outcome::Print(v) && v.deep_view() == x,
                    None => r is Failure,
                },
                Expression::Setter(sel, value) => match path_focus(sel.path(), target.deep_view()) {
                    Some(_) => r matches Outcome::Write(v) && v.deep_view() == path_put(
                        sel.path(),
                        target.deep_view(),
                        value.deep_view(),
                    ),
                    None => r is Failure,
                },
            },
            json_wf(target.deep_view()) ==> match r {
                Outcome::Print(v) => json_wf(v.deep_view()),
                Outcome::Write(v) => (self matches Expression::Setter(_, value) && json_wf(
                    value.deep_view(),
                )) ==> json_wf(v.deep_view()),
                Outcome::Failure => true,
            },
    {
        let ghost tg0 = target.deep_view();
        match self {
            Expression::Getter(selector) => {
                proof {
                    if json_wf(tg0) && path_focus(selector.path(), tg0) is Some {
                        lemma_path_focus_wf(selector.path(), tg0);
                    }
                }
                match selector.t_to_opt(target) {
                    Some(res) => Outcome::Print(res),
                    None => Outcome::Failure,
                }
            },
            Expression::Setter(selector, value) => {
                let visited = selector.t_to_opt(target.clone()).is_some();
                let vr = &value;
                let put = |_x: JsonValue| -> (y: JsonValue)
                    ensures
                        y.deep_view() == vr.deep_view(),
                    { vr.clone() };
                let ghost tg = target.deep_view();
                proof {
                    match path_focus(selector.path(), tg) {
                        Some(x) => {
                            assert forall|b: JsonValue| seq![x].contains(b.deep_view()) implies #[trigger]
                                call_requires(put, (b,)) by {}
                        },
                        None => {},
                    }
                }
                proof {
                    if json_wf(tg) && json_wf(value.deep_view()) {
                        lemma_path_put_wf(selector.path(), tg, value.deep_view());
                    }
                }
                let updated = selector.over(target, &put);
                if visited {
                    Outcome::Write(updated)
                } else {
                    Outcome::Failure
                }
            },
        }
    }
}

/// What running an expression on a JSON text gives, ready to print or to write back.
#[derive(Debug)]
pub enum Rendered {
    /// A getter found a value: this is it as indented JSON text.
    Print(String),
    /// A setter found its place: these are the bytes of the updated document.
    Write(Vec<u8>),
    /// The path found nothing.
    Failure,
}

impl Expression {
    /// Runs the expression on the JSON text `contents`: reads it, evaluates
    /// the expression on it, and writes what is to be printed or written back.
    ///
    /// Fails with the reason `serde_json` gives where `contents` is not JSON
    /// or where the result cannot be written.
    pub fn run(self, contents: &str) -> (r: Result<Rendered, JsonError>)
        ensures
            match spec_parse_json(contents@) {
                None => r is Err,
                Some(t) => match self {
                    Expression::Getter(sel) => match path_focus(sel.path(), t) {
                        Some(x) => match spec_json_text_pretty(x) {
                            Some(text) => r matches Ok(Rendered::Print(p)) && p@ == text,
                            None => r is Err,
                        },
                        None => r matches Ok(Rendered::Failure),
                    },
                    Expression::Setter(sel, value) => match path_focus(sel.path(), t) {
                        Some(_) => match spec_json_bytes(
                            path_put(sel.path(), t, value.deep_view()),
                        ) {
                            Some(bytes) => r matches Ok(Rendered::Write(w)) && w@ == bytes,
                            None => r is Err,
                        },
                        None => r matches Ok(Rendered::Failure),
                    },
                },
            },
    {
        let target = match JsonValue::from_json_text(contents) {
            Ok(t) => t,
            Err(e) => {
                return Err(e);
            },
        };
        match self.evaluate(target) {
            Outcome::Print(v) => match v.to_json_text_pretty() {
                Ok(text) => Ok(Rendered::Print(text)),
                Err(e) => Err(e),
            },
            Outcome::Write(v) => match v.to_json_bytes() {
                Ok(bytes) => Ok(Rendered::Write(bytes)),
                Err(e) => Err(e),
            },
            Outcome::Failure => Ok(Rendered::Failure),
        }
    }
}

} // verus!

verus! {

proof fn lemma_step_get_put(t: TokenModel, a: JsonModel, v: JsonModel)
    requires
        step_focus(t, a) is Some,
    ensures
        step_focus(t, step_put(t, a, v)) == Some(v),
{
    match t {
        TokenModel::Key(k) => {
            let m = a->Object_0;
            let i = key_index(m, k)->Some_0;
            lemma_key_from_range(m, k, 0);
            assert forall|j: int| 0 <= j <= m.len() implies #[trigger] key_from(
                m.update(i, (m[i].0, v)),
                k,
                j,
            ) == key_from(m, k, j) by {
                lemma_key_from_update(m, k, i, v, j);
            }
        },
        TokenModel::Idx(i) => {},
    }
}

/// Law (a read gives back what a write wrote): after putting `v` where a path
/// finds something, the path finds `v`.
pub proof fn lemma_path_get_put(p: Seq<TokenModel>, a: JsonModel, v: JsonModel)
    requires
        path_focus(p, a) is Some,
    ensures
        path_focus(p, path_put(p, a, v)) == Some(v),
    decreases p.len(),
{
    if p.len() > 0 {
        let x = step_focus(p[0], a)->Some_0;
        let inner = path_put(p.drop_first(), x, v);
        lemma_path_get_put(p.drop_first(), x, v);
        lemma_step_get_put(p[0], a, inner);
    }
}

proof fn lemma_step_put_get(t: TokenModel, a: JsonModel)
    requires
        step_focus(t, a) is Some,
    ensures
        step_put(t, a, step_focus(t, a)->Some_0) == a,
{
    match t {
        TokenModel::Key(k) => {
            let m = a->Object_0;
            let i = key_index(m, k)->Some_0;
            lemma_key_from_range(m, k, 0);
            assert(m.update(i, (m[i].0, m[i].1)) =~= m);
        },
        TokenModel::Idx(i) => {
            let s = a->Array_0;
            assert(s.update(i as int, s[i as int]) =~= s);
        },
    }
}

proof fn lemma_step_put_put(t: TokenModel, a: JsonModel, v1: JsonModel, v2: JsonModel)
    requires
        step_focus(t, a) is Some,
    ensures
        step_put(t, step_put(t, a, v1), v2) == step_put(t, a, v2),
{
    match t {
        TokenModel::Key(k) => {
            let m = a->Object_0;
            let i = key_index(m, k)->Some_0;
            lemma_key_from_range(m, k, 0);
            assert forall|j: int| 0 <= j <= m.len() implies #[trigger] key_from(
                m.update(i, (m[i].0, v1)),
                k,
                j,
            ) == key_from(m, k, j) by {
                lemma_key_from_update(m, k, i, v1, j);
            }
            assert(m.update(i, (m[i].0, v1)).update(i, (m[i].0, v2)) =~= m.update(i, (m[i].0, v2)));
        },
        TokenModel::Idx(i) => {
            let s = a->Array_0;
            assert(s.update(i as int, v1).update(i as int, v2) =~= s.update(i as int, v2));
        },
    }
}

/// Where a path finds nothing, putting a value there gives the value back unchanged.
pub proof fn lemma_path_put_unfocused_same(p: Seq<TokenModel>, a: JsonModel, v: JsonModel)
    requires
        path_focus(p, a) is None,
    ensures
        path_put(p, a, v) == a,
    decreases p.len(),
{
    if p.len() > 0 {
        match step_focus(p[0], a) {
            Some(x) => {
                lemma_path_put_unfocused_same(p.drop_first(), x, v);
                lemma_step_put_get(p[0], a);
            },
            None => {},
        }
    }
}

/// Law: putting back what a path finds changes nothing.
pub proof fn lemma_path_put_get(p: Seq<TokenModel>, a: JsonModel)
    requires
        path_focus(p, a) is Some,
    ensures
        path_put(p, a, path_focus(p, a)->Some_0) == a,
    decreases p.len(),
{
    if p.len() > 0 {
        let x = step_focus(p[0], a)->Some_0;
        lemma_path_put_get(p.drop_first(), x);
        lemma_step_put_get(p[0], a);
    }
}

/// Law: a second put along a path replaces the first.
pub proof fn lemma_path_put_put(p: Seq<TokenModel>, a: JsonModel, v1: JsonModel, v2: JsonModel)
    requires
        path_focus(p, a) is Some,
    ensures
        path_put(p, path_put(p, a, v1), v2) == path_put(p, a, v2),
    decreases p.len(),
{
    if p.len() > 0 {
        let t = p[0];
        let x = step_focus(t, a)->Some_0;
        let rest = p.drop_first();
        let w1 = path_put(rest, x, v1);
        lemma_step_get_put(t, a, w1);
        lemma_path_put_put(rest, x, v1, v2);
        lemma_step_put_put(t, a, w1, path_put(rest, x, v2));
    }
}

proof fn lemma_step_focus_wf(t: TokenModel, a: JsonModel)
    requires
        json_wf(a),
        step_focus(t, a) is Some,
    ensures
        json_wf(step_focus(t, a)->Some_0),
{
    match t {
        TokenModel::Key(k) => {
            let m = a->Object_0;
            lemma_key_from_range(m, k, 0);
            let i = key_index(m, k)->Some_0;
            assert(json_wf(m[i].1));
        },
        TokenModel::Idx(i) => {
            let s = a->Array_0;
            assert(json_wf(s[i as int]));
        },
    }
}

proof fn lemma_step_put_wf(t: TokenModel, a: JsonModel, v: JsonModel)
    requires
        json_wf(a),
        json_wf(v),
    ensures
        json_wf(step_put(t, a, v)),
{
    match t {
        TokenModel::Key(k) => {
            match a {
                JsonModel::Object(m) => {
                    lemma_key_put_keeps_keys(m, k, v);
                    match key_index(m, k) {
                        Some(i) => {
                            lemma_key_from_range(m, k, 0);
                            let m2 = m.update(i, (m[i].0, v));
                            assert forall|j: int| 0 <= j < m2.len() implies json_wf(
                                #[trigger] m2[j].1,
                            ) by {
                                if j != i {
                                    assert(json_wf(m[j].1));
                                }
                            }
                        },
                        None => {},
                    }
                },
                _ => {},
            }
        },
        TokenModel::Idx(i) => {
            match a {
                JsonModel::Array(s) => {
                    if i < s.len() {
                        let s2 = s.update(i as int, v);
                        assert forall|j: int| 0 <= j < s2.len() implies json_wf(#[trigger] s2[j]) by {
                            if j != i {
                                assert(json_wf(s[j]));
                            }
                        }
                    }
                },
                _ => {},
            }
        },
    }
}

/// What a path finds in a well-formed value is well-formed.
pub proof fn lemma_path_focus_wf(p: Seq<TokenModel>, a: JsonModel)
    requires
        json_wf(a),
        path_focus(p, a) is Some,
    ensures
        json_wf(path_focus(p, a)->Some_0),
    decreases p.len(),
{
    if p.len() > 0 {
        lemma_step_focus_wf(p[0], a);
        lemma_path_focus_wf(p.drop_first(), step_focus(p[0], a)->Some_0);
    }
}

/// Law: putting a well-formed value along a path into a well-formed value
/// gives a well-formed value (keys stay distinct, numbers stay numbers).
pub proof fn lemma_path_put_wf(p: Seq<TokenModel>, a: JsonModel, v: JsonModel)
    requires
        json_wf(a),
        json_wf(v),
    ensures
        json_wf(path_put(p, a, v)),
    decreases p.len(),
{
    if p.len() > 0 {
        match step_focus(p[0], a) {
            Some(x) => {
                lemma_step_focus_wf(p[0], a);
                lemma_path_put_wf(p.drop_first(), x, v);
                lemma_step_put_wf(p[0], a, path_put(p.drop_first(), x, v));
            },
            None => {},
        }
    }
}

} // verus!

verus! {

/// A character that may stand in an object key of a path: an ASCII letter or
/// digit, `_` or `-`.
pub open spec fn key_char(c: char) -> bool {
    ('a' <= c && c <= 'z') || ('A' <= c && c <= 'Z') || ('0' <= c && c <= '9') || c == '_' || c
        == '-'
}

/// The decimal digit for `d` (from 0 to 9).
pub open spec fn digit_char(d: int) -> char {
    if d == 0 {
        '0'
    } else if d == 1 {
        '1'
    } else if d == 2 {
        '2'
    } else if d == 3 {
        '3'
    } else if d == 4 {
        '4'
    } else if d == 5 {
        '5'
    } else if d == 6 {
        '6'
    } else if d == 7 {
        '7'
    } else if d == 8 {
        '8'
    } else {
        '9'
    }
}

/// The decimal text of `n`, without leading zeros.
pub open spec fn decimal_text(n: nat) -> Seq<char>
    decreases n,
{
    if n < 10 {
        seq![digit_char(n as int)]
    } else {
        decimal_text(n / 10).push(digit_char((n % 10) as int))
    }
}

proof fn lemma_span_exact(s: Seq<char>, i: int, n: int, class: CharClass)
    requires
        0 <= i,
        0 <= n,
        i + n <= s.len(),
        forall|j: int| i <= j < i + n ==> in_class(class, #[trigger] s[j]),
        i + n == s.len() || !in_class(class, s[i + n]),
    ensures
        span(s, i, class) == n,
    decreases n,
{
    if n > 0 {
        lemma_span_exact(s, i + 1, n - 1, class);
    }
}

proof fn lemma_decimal_text(n: nat)
    ensures
        decimal_text(n).len() >= 1,
        forall|j: int| 0 <= j < decimal_text(n).len() ==> '0' <= #[trigger] decimal_text(n)[j] <= '9',
        digits_value(decimal_text(n)) == n,
    decreases n,
{
    if n >= 10 {
        lemma_decimal_text(n / 10);
        let d = decimal_text(n / 10);
        let c = digit_char((n % 10) as int);
        assert(decimal_text(n) == d.push(c));
        assert(decimal_text(n).len() == d.len() + 1);
        assert(decimal_text(n).drop_last() =~= d);
        assert(decimal_text(n).last() == c);
        assert(c as int - '0' as int == n % 10);
        assert(digits_value(decimal_text(n)) == digits_value(d) * 10 + (c as int - '0' as int));
        assert(digits_value(d) == n / 10);
        assert((n / 10) * 10 + n % 10 == n) by (nonlinear_arith);
        assert forall|j: int| 0 <= j < decimal_text(n).len() implies '0' <= #[trigger] decimal_text(
            n,
        )[j] <= '9' by {
            if j < d.len() {
                assert(decimal_text(n)[j] == d[j]);
            }
        }
    } else {
        assert(decimal_text(n).drop_last() =~= Seq::<char>::empty());
        assert(decimal_text(n).last() == digit_char(n as int));
        assert(digit_char(n as int) as int - '0' as int == n);
        assert(digits_value(Seq::<char>::empty()) == 0);
        assert(digits_value(decimal_text(n)) == digits_value(decimal_text(n).drop_last()) * 10 + (
        digit_char(n as int) as int - '0' as int));
    }
}

/// Law (object keys): a `.` followed by a non-empty run of key characters
/// reads the whole run as the key, whatever characters it starts with, and
/// leaves what follows the run.
pub proof fn law_obj_key_reads_whole_key<'a>(
    input: &'a str,
    r: IResult<'a, String>,
    k: Seq<char>,
    rest: Seq<char>,
)
    requires
        parsed(input, r, spec_obj_key(input@)),
        input@ == seq!['.'] + k + rest,
        k.len() > 0,
        forall|j: int| 0 <= j < k.len() ==> key_char(#[trigger] k[j]),
        rest.len() == 0 || !key_char(rest[0]),
    ensures
        r matches Ok((after, key)) && key@ == k && after@ == rest,
{
    let s = input@;
    assert forall|j: int| 1 <= j < 1 + k.len() as int implies in_class(CharClass::KeyChar, #[trigger] s[j]) by {
        assert(s[j] == k[j - 1]);
        assert(key_char(k[j - 1]));
    }
    if rest.len() > 0 {
        assert(s[1 + k.len() as int] == rest[0]);
    }
    lemma_span_exact(s, 1, k.len() as int, CharClass::KeyChar);
    assert(s.subrange(1, 1 + k.len() as int) =~= k);
    assert(s.skip(1 + k.len() as int) =~= rest);
}

/// Law (object keys): a `.` not followed by a key character is refused there,
/// and a step that does not start with `.` is refused at its start.
pub proof fn law_obj_key_refuses<'a>(input: &'a str, r: IResult<'a, String>)
    requires
        parsed(input, r, spec_obj_key(input@)),
    ensures
        (input@.len() == 0 || input@[0] != '.') ==> (r matches Err(e) && e.input@ == input@
            && e.code == ErrorKind::Tag),
        (input@.len() >= 1 && input@[0] == '.' && (input@.len() == 1 || !key_char(input@[1])))
            ==> (r matches Err(e) && e.input@ == input@.skip(1) && e.code == ErrorKind::KeyChar),
{
    assert(input@.skip(0) =~= input@);
    if input@.len() >= 1 && input@[0] == '.' && (input@.len() == 1 || !key_char(input@[1])) {
        lemma_span_exact(input@, 1, 0, CharClass::KeyChar);
    }
}

/// Law (array positions): `[`, the decimal text of any `u32`, `]` reads that
/// number as the position, and leaves what follows the `]`.
pub proof fn law_array_idx_reads_any_u32<'a>(
    input: &'a str,
    r: IResult<'a, usize>,
    n: u32,
    rest: Seq<char>,
)
    requires
        parsed(input, r, spec_array_idx(input@)),
        input@ == seq!['['] + decimal_text(n as nat) + seq![']'] + rest,
    ensures
        r matches Ok((after, v)) && v == n as usize && after@ == rest,
{
    let s = input@;
    let d = decimal_text(n as nat);
    lemma_decimal_text(n as nat);
    assert forall|j: int| 1 <= j < 1 + d.len() as int implies in_class(CharClass::Digit, #[trigger] s[j]) by {
        assert(s[j] == d[j - 1]);
    }
    assert(s[1 + d.len() as int] == ']');
    lemma_span_exact(s, 1, d.len() as int, CharClass::Digit);
    assert(s.subrange(1, 1 + d.len() as int) =~= d);
    assert(spec_u32_at(s, 1) == Ok::<(int, int), (int, ErrorKind)>((1 + d.len() as int, n as int)));
    assert(s.skip(2 + d.len() as int) =~= rest);
}

/// Law (setters): after `=` and any spaces and tabs, the value text is the
/// whole rest of the input, character for character, and nothing is left.
pub proof fn law_setter_keeps_value_text<'a>(
    input: &'a str,
    r: IResult<'a, Setter>,
    spaces: Seq<char>,
    t: Seq<char>,
)
    requires
        parsed(input, r, spec_setter(input@)),
        input@ == seq!['='] + spaces + t,
        forall|j: int| 0 <= j < spaces.len() ==> (#[trigger] spaces[j] == ' ' || spaces[j] == '\t'),
        t.len() > 0,
        t[0] != ' ' && t[0] != '\t',
    ensures
        r matches Ok((after, setter)) && setter.deep_view() == t && after@.len() == 0,
{
    let s = input@;
    assert forall|j: int| 1 <= j < 1 + spaces.len() as int implies in_class(
        CharClass::Space,
        #[trigger] s[j],
    ) by {
        assert(s[j] == spaces[j - 1]);
    }
    assert(s[1 + spaces.len() as int] == t[0]);
    lemma_span_exact(s, 1, spaces.len() as int, CharClass::Space);
    assert(s.skip(1 + spaces.len() as int) =~= t);
    assert(s.skip(s.len() as int) =~= Seq::<char>::empty());
}

/// Law (array steps in paths): a position inside an array finds the element
/// there, and putting a value there replaces exactly that element.
pub proof fn law_path_index_step(s: Seq<JsonModel>, i: usize, v: JsonModel)
    ensures
        i < s.len() ==> path_focus(seq![TokenModel::Idx(i)], JsonModel::Array(s)) == Some(s[i as int])
            && path_put(seq![TokenModel::Idx(i)], JsonModel::Array(s), v) == JsonModel::Array(
            s.update(i as int, v),
        ),
        i >= s.len() ==> path_focus(seq![TokenModel::Idx(i)], JsonModel::Array(s)) is None
            && path_put(seq![TokenModel::Idx(i)], JsonModel::Array(s), v) == JsonModel::Array(s),
{
    let p = seq![TokenModel::Idx(i)];
    assert(p.drop_first() =~= Seq::<TokenModel>::empty());
    if i < s.len() {
        assert(path_focus(p.drop_first(), s[i as int]) == Some(s[i as int]));
        assert(path_put(p.drop_first(), s[i as int], v) == v);
    }
}

} // verus!

verus! {

proof fn lemma_not_prefix(s: Seq<char>, t: Seq<char>)
    requires
        t.len() > 0,
        s.len() > 0,
        s[0] != t[0],
    ensures
        !has_prefix(s, t),
{
    if t.len() <= s.len() {
        assert(s.take(t.len() as int)[0] == s[0]);
    }
}

proof fn lemma_prefix_of(p: Seq<char>, rest: Seq<char>)
    ensures
        has_prefix(p + rest, p),
        (p + rest).skip(p.len() as int) == rest,
{
    assert((p + rest).take(p.len() as int) =~= p);
    assert((p + rest).skip(p.len() as int) =~= rest);
}

/// Law (type names): each of `bool`, `object`, `array`, `number` and `string`
/// reads as its type and leaves what follows it.
pub proof fn law_cast_type_names<'a>(input: &'a str, r: IResult<'a, Cast>, rest: Seq<char>)
    requires
        parsed(input, r, spec_cast_type(input@)),
    ensures
        input@ == seq!['b', 'o', 'o', 'l'] + rest ==> (r matches Ok((after, c)) && c == Cast::Bool
            && after@ == rest),
        input@ == seq!['o', 'b', 'j', 'e', 'c', 't'] + rest ==> (r matches Ok((after, c)) && c
            == Cast::Object && after@ == rest),
        input@ == seq!['a', 'r', 'r', 'a', 'y'] + rest ==> (r matches Ok((after, c)) && c
            == Cast::Array && after@ == rest),
        input@ == seq!['n', 'u', 'm', 'b', 'e', 'r'] + rest ==> (r matches Ok((after, c)) && c
            == Cast::Number && after@ == rest),
        input@ == seq!['s', 't', 'r', 'i', 'n', 'g'] + rest ==> (r matches Ok((after, c)) && c
            == Cast::String && after@ == rest),
{
    let s = input@;
    let b = seq!['b', 'o', 'o', 'l'];
    let o = seq!['o', 'b', 'j', 'e', 'c', 't'];
    let a = seq!['a', 'r', 'r', 'a', 'y'];
    let n = seq!['n', 'u', 'm', 'b', 'e', 'r'];
    let t = seq!['s', 't', 'r', 'i', 'n', 'g'];
    if s == b + rest {
        lemma_prefix_of(b, rest);
    }
    if s == o + rest {
        assert(s[0] == 'o');
        lemma_not_prefix(s, b);
        lemma_prefix_of(o, rest);
    }
    if s == a + rest {
        assert(s[0] == 'a');
        lemma_not_prefix(s, b);
        lemma_not_prefix(s, o);
        lemma_prefix_of(a, rest);
    }
    if s == n + rest {
        assert(s[0] == 'n');
        lemma_not_prefix(s, b);
        lemma_not_prefix(s, o);
        lemma_not_prefix(s, a);
        lemma_prefix_of(n, rest);
    }
    if s == t + rest {
        assert(s[0] == 's');
        lemma_not_prefix(s, b);
        lemma_not_prefix(s, o);
        lemma_not_prefix(s, a);
        lemma_not_prefix(s, n);
        lemma_prefix_of(t, rest);
    }
}

/// Law (path steps): `[n]` reads as the position `n` and `.key` as the key,
/// each leaving what follows it.
pub proof fn law_token_reads_step<'a>(
    input: &'a str,
    r: IResult<'a, Token>,
    n: u32,
    k: Seq<char>,
    rest: Seq<char>,
)
    requires
        parsed(input, r, spec_token(input@)),
    ensures
        input@ == seq!['['] + decimal_text(n as nat) + seq![']'] + rest ==> (r matches Ok((after, t))
            && t.deep_view() == TokenModel::Idx(n as usize) && after@ == rest),
        (input@ == seq!['.'] + k + rest && k.len() > 0 && (forall|j: int|
            0 <= j < k.len() ==> key_char(#[trigger] k[j])) && (rest.len() == 0 || !key_char(
            rest[0],
        ))) ==> (r matches Ok((after, t)) && t.deep_view() == TokenModel::Key(k) && after@ == rest),
{
    let s = input@;
    if s == seq!['['] + decimal_text(n as nat) + seq![']'] + rest {
        let d = decimal_text(n as nat);
        lemma_decimal_text(n as nat);
        assert forall|j: int| 1 <= j < 1 + d.len() as int implies in_class(
            CharClass::Digit,
            #[trigger] s[j],
        ) by {
            assert(s[j] == d[j - 1]);
        }
        assert(s[1 + d.len() as int] == ']');
        lemma_span_exact(s, 1, d.len() as int, CharClass::Digit);
        assert(s.subrange(1, 1 + d.len() as int) =~= d);
        assert(spec_u32_at(s, 1) == Ok::<(int, int), (int, ErrorKind)>((1 + d.len() as int, n as int)));
        assert(s.skip(2 + d.len() as int) =~= rest);
    }
    if s == seq!['.'] + k + rest && k.len() > 0 && (forall|j: int|
        0 <= j < k.len() ==> key_char(#[trigger] k[j])) && (rest.len() == 0 || !key_char(rest[0])) {
        assert(s[0] == '.');
        assert forall|j: int| 1 <= j < 1 + k.len() as int implies in_class(
            CharClass::KeyChar,
            #[trigger] s[j],
        ) by {
            assert(s[j] == k[j - 1]);
            assert(key_char(k[j - 1]));
        }
        if rest.len() > 0 {
            assert(s[1 + k.len() as int] == rest[0]);
        }
        lemma_span_exact(s, 1, k.len() as int, CharClass::KeyChar);
        assert(s.subrange(1, 1 + k.len() as int) =~= k);
        assert(s.skip(1 + k.len() as int) =~= rest);
    }
}

} // verus!

verus! {

proof fn lemma_key_step(s: Seq<char>, k: Seq<char>, rest: Seq<char>)
    requires
        s == seq!['.'] + k + rest,
        k.len() > 0,
        forall|j: int| 0 <= j < k.len() ==> key_char(#[trigger] k[j]),
        rest.len() == 0 || !key_char(rest[0]),
    ensures
        spec_token(s) == Ok::<(int, TokenModel), (int, ErrorKind)>(
            (1 + k.len() as int, TokenModel::Key(k)),
        ),
        s.skip(1 + k.len() as int) == rest,
{
    assert(s[0] == '.');
    assert forall|j: int| 1 <= j < 1 + k.len() as int implies in_class(
        CharClass::KeyChar,
        #[trigger] s[j],
    ) by {
        assert(s[j] == k[j - 1]);
        assert(key_char(k[j - 1]));
    }
    if rest.len() > 0 {
        assert(s[1 + k.len() as int] == rest[0]);
    }
    lemma_span_exact(s, 1, k.len() as int, CharClass::KeyChar);
    assert(s.subrange(1, 1 + k.len() as int) =~= k);
    assert(s.skip(1 + k.len() as int) =~= rest);
}

/// Law (expressions): the empty text is the getter of the empty path; a key
/// step alone is the getter of that key; a key step, `=` and a value text is
/// the setter of that key with exactly that text.
pub proof fn law_tokens_key_expressions<'a>(
    input: &'a str,
    r: IResult<'a, RawExpression>,
    k: Seq<char>,
    t: Seq<char>,
)
    requires
        parsed(input, r, spec_tokens(input@)),
        k.len() > 0,
        forall|j: int| 0 <= j < k.len() ==> key_char(#[trigger] k[j]),
    ensures
        input@.len() == 0 ==> (r matches Ok((after, e)) && e.deep_view() == RawModel::Getter(
            Seq::empty(),
        ) && after@.len() == 0),
        input@ == seq!['.'] + k ==> (r matches Ok((after, e)) && e.deep_view() == RawModel::Getter(
            seq![TokenModel::Key(k)],
        ) && after@.len() == 0),
        (input@ == seq!['.'] + k + seq!['='] + t && t.len() > 0 && t[0] != ' ' && t[0] != '\t')
            ==> (r matches Ok((after, e)) && e.deep_view() == RawModel::Setter(
            seq![TokenModel::Key(k)],
            t,
        ) && after@.len() == 0),
{
    let s = input@;
    if s.len() == 0 {
        assert(s.skip(0) =~= s);
        assert(s.skip(s.len() as int) =~= s);
    }
    if s == seq!['.'] + k {
        let n = 1 + k.len() as int;
        assert(s =~= seq!['.'] + k + Seq::<char>::empty());
        lemma_key_step(s, k, Seq::empty());
        assert(s.skip(0) =~= s);
        assert(spec_many_till(s, n) == Ok::<(Seq<TokenModel>, Option<Seq<char>>), (int, ErrorKind)>(
            (Seq::empty(), None),
        ));
        assert(seq![TokenModel::Key(k)] + Seq::<TokenModel>::empty() =~= seq![TokenModel::Key(k)]);
        assert(s.skip(s.len() as int) =~= Seq::<char>::empty());
    }
    if s == seq!['.'] + k + seq!['='] + t && t.len() > 0 && t[0] != ' ' && t[0] != '\t' {
        let n = 1 + k.len() as int;
        let rest = seq!['='] + t;
        assert(s =~= seq!['.'] + k + rest);
        lemma_key_step(s, k, rest);
        assert(s.skip(0) =~= s);
        assert(rest[1] == t[0]);
        lemma_span_exact(rest, 1, 0, CharClass::Space);
        assert(rest.skip(1) =~= t);
        assert(spec_setter(rest) == Ok::<(int, Seq<char>), (int, ErrorKind)>((rest.len() as int, t)));
        assert(s.skip(n) == rest);
        assert(spec_many_till(s, n) == Ok::<(Seq<TokenModel>, Option<Seq<char>>), (int, ErrorKind)>(
            (Seq::empty(), Some(t)),
        ));
        assert(spec_setter(s) is Err);
        assert(seq![TokenModel::Key(k)] + Seq::<TokenModel>::empty() =~= seq![TokenModel::Key(k)]);
        assert(spec_many_till(s, 0) == Ok::<(Seq<TokenModel>, Option<Seq<char>>), (int, ErrorKind)>(
            (seq![TokenModel::Key(k)], Some(t)),
        ));
        assert(s.skip(s.len() as int) =~= Seq::<char>::empty());
    }
}

} // verus!
