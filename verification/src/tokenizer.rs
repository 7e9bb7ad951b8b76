//! The tokenizer: a character-driven state machine that classifies the
//! input stream into a sequence of tokens.
//!
//! The machine follows the HTML tokenization rules for the states listed in
//! `State`; the states outside the implemented subset halt with an explicit
//! error instead of mis-tokenizing.  The whole transition table is written
//! once, as the specification-level function `tk_step`; every executable
//! state handler is proved to perform exactly its own row of that table,
//! and `next_token` is proved to iterate `tk_step` to the next emission
//! (`tk_run`).  Emitted tags are proved to carry pairwise distinct
//! attribute names, and the stream is proved to make progress: every token
//! but the final `EndOfFile` consumes at least one input character.

use vstd::prelude::*;
use vstd::string::StrSliceExecFns;

verus! {

/// A DOCTYPE token under construction or as emitted.  A missing name is
/// distinct from an empty one.
#[derive(Debug, Clone, PartialEq, Eq)]
pub struct DOCTYPE {
    pub name: Option<String>,
}

/// Whether the tag under construction opened as `<name` or `</name`.
#[derive(Debug, Clone, Copy, PartialEq, Eq)]
pub enum TagType {
    StartTag,
    EndTag,
}

/// One attribute: a name and a value.
#[derive(Debug, Clone, PartialEq, Eq)]
pub struct Attribute {
    pub name: String,
    pub value: String,
}

/// A start or end tag: its (lowercased) name and its attributes, whose
/// names are pairwise distinct; the first occurrence of a duplicated
/// attribute name wins.
#[derive(Debug, Clone, PartialEq, Eq)]
pub struct Tag {
    pub name: String,
    pub attributes: Vec<Attribute>,
}

impl Tag {
    /// A fresh tag with an empty name and no attributes.
    pub fn new() -> (t: Self)
        ensures
            t@ == (TagM { name: Seq::<char>::empty(), attrs: Seq::<AttrM>::empty() }),
    {
        Tag { name: String::new(), attributes: Vec::new() }
    }
}

/// The tokens the machine emits.  A `Character` token carries exactly one
/// code point; runs of text are emitted as consecutive `Character` tokens.
#[derive(Debug, PartialEq, Eq)]
pub enum Token {
    Doctype(DOCTYPE),
    StartTag(Tag),
    EndTag(Tag),
    Comment(String),
    Character(char),
    EndOfFile,
}

/// The labels of the tokenization state machine, as named by the HTML
/// standard.  Only the states with a handler in `next_token` are
/// implemented; reaching any other label halts with an explicit error.
#[derive(Debug, Clone, Copy, PartialEq, Eq)]
pub enum State {
    DataState,
    RCDATAState,
    RAWTEXTState,
    ScriptDataState,
    PlaintextState,
    TagOpenState,
    EndTagOpenState,
    TagNameState,
    RCDATALessThanSignState,
    RCDATAEndTagOpenState,
    RCDATAEndTagNameState,
    RAWTEXTLessThanSignState,
    RAWTEXTEndTagOpenState,
    RAWTEXTEndTagNameState,
    ScriptDataLessThanSignState,
    ScriptDataEndTagOpenState,
    ScriptDataEndTagNameState,
    ScriptDataEscapeStartState,
    ScriptDataEscapeStartDashState,
    ScriptDataEscapedState,
    ScriptDataEscapedDashState,
    ScriptDataEscapedDashDashState,
    ScriptDataEscapedLessThanSignState,
    ScriptDataEscapedEndTagOpenState,
    ScriptDataEscapedEndTagNameState,
    ScriptDataDoubleEscapeStartState,
    ScriptDataDoubleEscapedState,
    ScriptDataDoubleEscapedDashState,
    ScriptDataDoubleEscapedDashDashState,
    ScriptDataDoubleEscapedLessThanSignState,
    ScriptDataDoubleEscapeEndState,
    BeforeAttributeNameState,
    AttributeNameState,
    AfterAttributeNameState,
    BeforeAttributeValueState,
    AttributeValueDoubleQuotedState,
    AttributeValueSingleQuotedState,
    AttributeValueUnquotedState,
    AfterAttributeValueQuotedState,
    SelfClosingStartTagState,
    BogusCommentState,
    MarkupDeclarationOpenState,
    CommentStartState,
    CommentStartDashState,
    CommentState,
    CommentLessThanSignState,
    CommentLessThanSignBangState,
    CommentLessThanSignBangDashState,
    CommentLessThanSignBangDashDashState,
    CommentEndDashState,
    CommentEndState,
    CommentEndBangState,
    DOCTYPEState,
    BeforeDOCTYPENameState,
    DOCTYPENameState,
    AfterDOCTYPENameState,
    AfterDOCTYPEPublicKeywordState,
    BeforeDOCTYPEPublicIdentifierState,
    DOCTYPEPublicIdentifierDoubleQuotedState,
    DOCTYPEPublicIdentifierSingleQuotedState,
    AfterDOCTYPEPublicIdentifierState,
    BetweenDOCTYPEPublicAndSystemIdentifiersState,
    AfterDOCTYPESystemKeywordState,
    BeforeDOCTYPESystemIdentifierState,
    DOCTYPESystemIdentifierDoubleQuotedState,
    DOCTYPESystemIdentifierSingleQuotedState,
    AfterDOCTYPESystemIdentifierState,
    BogusDOCTYPEState,
    CDATASectionState,
    CDATASectionBracketState,
    CDATASectionEndState,
    CharacterReferenceState,
    NamedCharacterReferenceState,
    AmbiguousAmpersandState,
    NumericCharacterReferenceState,
    HexadecimalCharacterReferenceStartState,
    DecimalCharacterReferenceStartState,
    HexadecimalCharacterReferenceState,
    DecimalCharacterReferenceState,
    NumericCharacterReferenceEndState,
}

/// How tokenization halts on input outside the implemented subset: the
/// state reached and the code point that triggered the halt (`None` at end
/// of input), or a markup declaration that opens neither a comment nor a
/// DOCTYPE.
#[derive(Debug, Clone, PartialEq, Eq)]
pub enum TokenizerError {
    UnsupportedState { state: State, ch: Option<char> },
    UnsupportedMarkup,
}

// ---------------------------------------------------------------------
// Mathematical models of the tokens and of the machine state.
// ---------------------------------------------------------------------

/// Model of an attribute.
#[verifier::ext_equal]
pub struct AttrM {
    pub name: Seq<char>,
    pub value: Seq<char>,
}

/// Model of a tag.
#[verifier::ext_equal]
pub struct TagM {
    pub name: Seq<char>,
    pub attrs: Seq<AttrM>,
}

/// Model of a token.
#[verifier::ext_equal]
pub enum TokenM {
    Doctype { name: Option<Seq<char>> },
    StartTag(TagM),
    EndTag(TagM),
    Comment(Seq<char>),
    Character(char),
    EndOfFile,
}

impl View for Attribute {
    type V = AttrM;

    open spec fn view(&self) -> AttrM {
        AttrM { name: self.name@, value: self.value@ }
    }
}

impl View for Tag {
    type V = TagM;

    open spec fn view(&self) -> TagM {
        TagM { name: self.name@, attrs: self.attributes@.map_values(|a: Attribute| a@) }
    }
}

impl View for DOCTYPE {
    type V = Option<Seq<char>>;

    open spec fn view(&self) -> Option<Seq<char>> {
        match self.name {
            Some(s) => Some(s@),
            None => None,
        }
    }
}

impl View for Token {
    type V = TokenM;

    open spec fn view(&self) -> TokenM {
        match self {
            Token::Doctype(d) => TokenM::Doctype { name: d@ },
            Token::StartTag(t) => TokenM::StartTag(t@),
            Token::EndTag(t) => TokenM::EndTag(t@),
            Token::Comment(s) => TokenM::Comment(s@),
            Token::Character(c) => TokenM::Character(*c),
            Token::EndOfFile => TokenM::EndOfFile,
        }
    }
}

/// The names in a sequence of attributes are pairwise distinct.
pub open spec fn attrs_distinct(attrs: Seq<AttrM>) -> bool {
    forall|i: int, j: int|
        0 <= i < j < attrs.len() ==> (#[trigger] attrs[i]).name != (#[trigger] attrs[j]).name
}

/// Some attribute in the sequence already bears this name.
pub open spec fn has_attr_name(attrs: Seq<AttrM>, name: Seq<char>) -> bool {
    exists|i: int| 0 <= i < attrs.len() && (#[trigger] attrs[i]).name == name
}

/// A token is well-formed when any attributes it carries have pairwise
/// distinct names.
pub open spec fn token_wf(t: TokenM) -> bool {
    match t {
        TokenM::StartTag(tag) => attrs_distinct(tag.attrs),
        TokenM::EndTag(tag) => attrs_distinct(tag.attrs),
        _ => true,
    }
}

/// The model of the whole machine: the input and cursor, the state label,
/// the scratch token parts under construction, and whether the final
/// `EndOfFile` token has already been handed out.
#[verifier::ext_equal]
pub struct TkModel {
    pub chars: Seq<char>,
    pub index: int,
    pub state: State,
    pub doctype_name: Option<Seq<char>>,
    pub tag_name: Seq<char>,
    pub tag_attrs: Seq<AttrM>,
    pub tag_type: TagType,
    pub attr_name: Seq<char>,
    pub attr_value: Seq<char>,
    pub comment: Seq<char>,
    pub eof_emitted: bool,
}

impl TkModel {
    /// The cursor stays within the input, and the attributes accumulated so
    /// far have pairwise distinct names.
    pub open spec fn wf(self) -> bool {
        &&& 0 <= self.index <= self.chars.len()
        &&& attrs_distinct(self.tag_attrs)
    }
}

/// The tokenizer.  Constructed over a string of already-decoded code
/// points; `next_token` pulls the next token, and `next` wraps it as a
/// finite stream that ends right after the single `EndOfFile`.
pub struct Tokenizer {
    pub eof_emitted: bool,
    pub chars: Vec<char>,
    pub index: usize,
    pub current_state: State,
    pub current_doc_type: DOCTYPE,
    pub current_tag: Tag,
    pub current_tag_type: TagType,
    pub current_attribute: Attribute,
    pub current_comment_data: String,
}

impl View for Tokenizer {
    type V = TkModel;

    open spec fn view(&self) -> TkModel {
        TkModel {
            chars: self.chars@,
            index: self.index as int,
            state: self.current_state,
            doctype_name: self.current_doc_type@,
            tag_name: self.current_tag.name@,
            tag_attrs: self.current_tag@.attrs,
            tag_type: self.current_tag_type,
            attr_name: self.current_attribute.name@,
            attr_value: self.current_attribute.value@,
            comment: self.current_comment_data@,
            eof_emitted: self.eof_emitted,
        }
    }
}

// ---------------------------------------------------------------------
// Character classes.
// ---------------------------------------------------------------------

/// The tokenizer's whitespace class: tab, line feed, form feed, space.
/// Carriage returns are not in this set; line-ending normalization is
/// assumed to have happened upstream.
pub open spec fn is_ws(c: char) -> bool {
    c == '\u{0009}' || c == '\u{000A}' || c == '\u{000C}' || c == '\u{0020}'
}

pub fn is_one_of_tab_lf_ff_space(c: char) -> (r: bool)
    ensures
        r == is_ws(c),
{
    c == '\u{0009}' || c == '\u{000A}' || c == '\u{000C}' || c == '\u{0020}'
}

pub open spec fn spec_is_upper(c: char) -> bool {
    'A' <= c && c <= 'Z'
}

pub open spec fn spec_is_alpha(c: char) -> bool {
    spec_is_upper(c) || ('a' <= c && c <= 'z')
}

/// The ASCII lowercase fold: `A`..`Z` shifted down by 0x20, everything
/// else unchanged.
pub open spec fn lower_char(c: char) -> char {
    if spec_is_upper(c) {
        (((c as u32) + 32) as u8) as char
    } else {
        c
    }
}

fn is_ascii_upper(c: char) -> (r: bool)
    ensures
        r == spec_is_upper(c),
{
    let u = c as u32;
    65 <= u && u <= 90
}

fn is_ascii_alpha(c: char) -> (r: bool)
    ensures
        r == spec_is_alpha(c),
{
    let u = c as u32;
    (65 <= u && u <= 90) || (97 <= u && u <= 122)
}

fn to_lower(c: char) -> (r: char)
    ensures
        r == lower_char(c),
{
    let u = c as u32;
    if 65 <= u && u <= 90 {
        ((u + 32) as u8) as char
    } else {
        c
    }
}

// ---------------------------------------------------------------------
// Small executable helpers over strings.
// ---------------------------------------------------------------------

/// Relies on String::push: appends exactly one character at the end of the
/// string.
#[verifier::external_body]
pub fn push_char(s: &mut String, c: char)
    ensures
        final(s)@ == old(s)@.push(c),
{
    s.push(c);
}

/// The code points of a string, in order, as a vector.
pub fn str_to_chars(s: &str) -> (v: Vec<char>)
    ensures
        v@ == s@,
{
    let n = s.unicode_len();
    let mut v: Vec<char> = Vec::new();
    let mut i: usize = 0;
    while i < n
        invariant
            i <= n,
            n == s@.len(),
            v@ == s@.subrange(0, i as int),
        decreases n - i,
    {
        let c = s.get_char(i);
        v.push(c);
        proof {
            assert(s@.subrange(0, i as int).push(s@[i as int]) =~= s@.subrange(0, i + 1 as int));
        }
        i = i + 1;
    }
    proof {
        assert(s@.subrange(0, n as int) =~= s@);
    }
    v
}

/// Whether two string slices hold the same code points.
pub fn str_eq(a: &str, b: &str) -> (r: bool)
    ensures
        r == (a@ == b@),
{
    let n = a.unicode_len();
    let m = b.unicode_len();
    if n != m {
        return false;
    }
    let mut i: usize = 0;
    while i < n
        invariant
            i <= n,
            n == a@.len(),
            n == b@.len(),
            forall|k: int| 0 <= k < i ==> a@[k] == b@[k],
        decreases n - i,
    {
        if a.get_char(i) != b.get_char(i) {
            return false;
        }
        i = i + 1;
    }
    proof {
        assert(a@ =~= b@);
    }
    true
}

/// A copy of an attribute list, element for element.
pub fn clone_attrs(attrs: &Vec<Attribute>) -> (r: Vec<Attribute>)
    ensures
        r@.map_values(|a: Attribute| a@) == attrs@.map_values(|a: Attribute| a@),
{
    let mut r: Vec<Attribute> = Vec::new();
    let mut i: usize = 0;
    while i < attrs.len()
        invariant
            i <= attrs@.len(),
            r@.len() == i,
            forall|k: int| 0 <= k < i ==> (#[trigger] r@[k])@ == attrs@[k]@,
        decreases attrs@.len() - i,
    {
        let a = &attrs[i];
        let copy = Attribute { name: a.name.clone(), value: a.value.clone() };
        proof {
            assert(copy@ == a@);
        }
        r.push(copy);
        i = i + 1;
    }
    proof {
        assert(r@.map_values(|a: Attribute| a@) =~= attrs@.map_values(|a: Attribute| a@));
    }
    r
}

// ---------------------------------------------------------------------
// The transition table, written once at the specification level.
// ---------------------------------------------------------------------

/// One row of the transition table: the machine state after the step, and
/// what the step does outwardly.
#[verifier::ext_equal]
pub struct TkStep {
    pub m: TkModel,
    pub out: TkOut,
}

/// The outward effect of one step: keep running, emit a token, or halt
/// with an error.
#[verifier::ext_equal]
pub enum TkOut {
    Proceed,
    Emit(TokenM),
    Fail(TokenizerError),
}

/// The model after consuming the next input character.
pub open spec fn consumed(m: TkModel) -> TkModel {
    TkModel { index: m.index + 1, ..m }
}

/// The next input character, if any, without consuming it.
pub open spec fn peek_m(m: TkModel) -> Option<char> {
    if m.index < m.chars.len() {
        Some(m.chars[m.index])
    } else {
        None
    }
}

/// A step that only moves to another state.
pub open spec fn proceed_to(m: TkModel, s: State) -> TkStep {
    TkStep { m: TkModel { state: s, ..m }, out: TkOut::Proceed }
}

/// A halting step: the machine stops in state `m.state` on `ch`.
pub open spec fn fail_at(m: TkModel, m2: TkModel, ch: Option<char>) -> TkStep {
    TkStep { m: m2, out: TkOut::Fail(TokenizerError::UnsupportedState { state: m.state, ch }) }
}

/// Finalizing the attribute under construction: if its name is empty there
/// is none; otherwise it joins the tag unless the name is already taken
/// (the first occurrence wins), and the scratch is cleared.
pub open spec fn spec_flush_attr(m: TkModel) -> TkModel {
    if m.attr_name.len() == 0 {
        m
    } else {
        let attrs2 = if has_attr_name(m.tag_attrs, m.attr_name) {
            m.tag_attrs
        } else {
            m.tag_attrs.push(AttrM { name: m.attr_name, value: m.attr_value })
        };
        TkModel {
            tag_attrs: attrs2,
            attr_name: Seq::<char>::empty(),
            attr_value: Seq::<char>::empty(),
            ..m
        }
    }
}

/// Completing the tag under construction: the pending attribute is
/// finalized and the tag is wrapped as a start or end tag token.
pub open spec fn spec_build_tag(m: TkModel) -> (TkModel, TokenM) {
    let m2 = spec_flush_attr(m);
    let tag = TagM { name: m2.tag_name, attrs: m2.tag_attrs };
    (
        m2,
        if m2.tag_type == TagType::StartTag {
            TokenM::StartTag(tag)
        } else {
            TokenM::EndTag(tag)
        },
    )
}

pub open spec fn spec_data_state(m: TkModel) -> TkStep {
    if m.index < m.chars.len() {
        let c = m.chars[m.index];
        if c == '&' || c == '\u{0000}' {
            fail_at(m, consumed(m), Some(c))
        } else if c == '<' {
            proceed_to(consumed(m), State::TagOpenState)
        } else {
            TkStep { m: consumed(m), out: TkOut::Emit(TokenM::Character(c)) }
        }
    } else {
        TkStep { m, out: TkOut::Emit(TokenM::EndOfFile) }
    }
}

pub open spec fn spec_tag_open_state(m: TkModel) -> TkStep {
    if m.index < m.chars.len() {
        let c = m.chars[m.index];
        if c == '!' {
            proceed_to(consumed(m), State::MarkupDeclarationOpenState)
        } else if c == '/' {
            proceed_to(consumed(m), State::EndTagOpenState)
        } else if spec_is_alpha(c) {
            TkStep {
                m: TkModel {
                    state: State::TagNameState,
                    tag_type: TagType::StartTag,
                    tag_name: Seq::<char>::empty(),
                    tag_attrs: Seq::<AttrM>::empty(),
                    ..m
                },
                out: TkOut::Proceed,
            }
        } else {
            fail_at(m, consumed(m), Some(c))
        }
    } else {
        fail_at(m, m, None)
    }
}

pub open spec fn spec_end_tag_open_state(m: TkModel) -> TkStep {
    if m.index < m.chars.len() {
        let c = m.chars[m.index];
        if spec_is_alpha(c) {
            TkStep {
                m: TkModel {
                    state: State::TagNameState,
                    tag_type: TagType::EndTag,
                    tag_name: Seq::<char>::empty(),
                    tag_attrs: Seq::<AttrM>::empty(),
                    ..m
                },
                out: TkOut::Proceed,
            }
        } else {
            fail_at(m, consumed(m), Some(c))
        }
    } else {
        fail_at(m, m, None)
    }
}

pub open spec fn spec_tag_name_state(m: TkModel) -> TkStep {
    if m.index < m.chars.len() {
        let c = m.chars[m.index];
        if is_ws(c) {
            proceed_to(consumed(m), State::BeforeAttributeNameState)
        } else if c == '/' {
            fail_at(m, consumed(m), Some(c))
        } else if c == '>' {
            let mc = TkModel { state: State::DataState, ..consumed(m) };
            let (m2, t) = spec_build_tag(mc);
            TkStep { m: m2, out: TkOut::Emit(t) }
        } else if spec_is_upper(c) {
            TkStep {
                m: TkModel { tag_name: m.tag_name.push(lower_char(c)), ..consumed(m) },
                out: TkOut::Proceed,
            }
        } else if c == '\u{0000}' {
            fail_at(m, consumed(m), Some(c))
        } else {
            TkStep { m: TkModel { tag_name: m.tag_name.push(c), ..consumed(m) }, out: TkOut::Proceed }
        }
    } else {
        fail_at(m, m, None)
    }
}

pub open spec fn spec_before_attribute_name_state(m: TkModel) -> TkStep {
    if m.index < m.chars.len() {
        let c = m.chars[m.index];
        if is_ws(c) {
            proceed_to(consumed(m), State::BeforeAttributeNameState)
        } else if c == '/' || c == '>' || c == '=' {
            fail_at(m, consumed(m), Some(c))
        } else {
            TkStep {
                m: TkModel { state: State::AttributeNameState, ..spec_flush_attr(m) },
                out: TkOut::Proceed,
            }
        }
    } else {
        fail_at(m, m, None)
    }
}

pub open spec fn spec_attribute_name_state(m: TkModel) -> TkStep {
    if m.index < m.chars.len() {
        let c = m.chars[m.index];
        if is_ws(c) || c == '/' || c == '>' {
            fail_at(m, consumed(m), Some(c))
        } else if c == '=' {
            proceed_to(consumed(m), State::BeforeAttributeValueState)
        } else if spec_is_upper(c) || c == '\u{0000}' || c == '"' || c == '\'' || c == '<' {
            fail_at(m, consumed(m), Some(c))
        } else {
            TkStep {
                m: TkModel { attr_name: m.attr_name.push(c), ..consumed(m) },
                out: TkOut::Proceed,
            }
        }
    } else {
        fail_at(m, m, None)
    }
}

pub open spec fn spec_before_attribute_value_state(m: TkModel) -> TkStep {
    if m.index < m.chars.len() {
        let c = m.chars[m.index];
        if is_ws(c) {
            proceed_to(consumed(m), State::BeforeAttributeValueState)
        } else if c == '"' {
            proceed_to(consumed(m), State::AttributeValueDoubleQuotedState)
        } else {
            fail_at(m, consumed(m), Some(c))
        }
    } else {
        fail_at(m, m, None)
    }
}

pub open spec fn spec_attribute_value_double_quoted_state(m: TkModel) -> TkStep {
    if m.index < m.chars.len() {
        let c = m.chars[m.index];
        if c == '"' {
            proceed_to(consumed(m), State::AfterAttributeValueQuotedState)
        } else if c == '&' || c == '\u{0000}' {
            fail_at(m, consumed(m), Some(c))
        } else {
            TkStep {
                m: TkModel { attr_value: m.attr_value.push(c), ..consumed(m) },
                out: TkOut::Proceed,
            }
        }
    } else {
        fail_at(m, m, None)
    }
}

pub open spec fn spec_after_attribute_value_quoted_state(m: TkModel) -> TkStep {
    if m.index < m.chars.len() {
        let c = m.chars[m.index];
        if is_ws(c) {
            proceed_to(consumed(m), State::BeforeAttributeNameState)
        } else if c == '>' {
            let mc = TkModel { state: State::DataState, ..consumed(m) };
            let (m2, t) = spec_build_tag(mc);
            TkStep { m: m2, out: TkOut::Emit(t) }
        } else {
            fail_at(m, consumed(m), Some(c))
        }
    } else {
        fail_at(m, m, None)
    }
}

/// The markup declaration open state peeks, rather than consumes: two code
/// points for `--`, or seven for `doctype` up to ASCII case.
pub open spec fn spec_markup_declaration_open_state(m: TkModel) -> TkStep {
    if m.index + 2 <= m.chars.len() && m.chars[m.index] == '-' && m.chars[m.index + 1] == '-' {
        TkStep {
            m: TkModel {
                index: m.index + 2,
                state: State::CommentStartState,
                comment: Seq::<char>::empty(),
                ..m
            },
            out: TkOut::Proceed,
        }
    } else if m.index + 7 <= m.chars.len() && matches_doctype(m.chars, m.index) {
        TkStep {
            m: TkModel { index: m.index + 7, state: State::DOCTYPEState, ..m },
            out: TkOut::Proceed,
        }
    } else {
        TkStep { m, out: TkOut::Fail(TokenizerError::UnsupportedMarkup) }
    }
}

/// The seven code points at `i` spell `doctype` up to ASCII case.
pub open spec fn matches_doctype(s: Seq<char>, i: int) -> bool {
    &&& lower_char(s[i]) == 'd'
    &&& lower_char(s[i + 1]) == 'o'
    &&& lower_char(s[i + 2]) == 'c'
    &&& lower_char(s[i + 3]) == 't'
    &&& lower_char(s[i + 4]) == 'y'
    &&& lower_char(s[i + 5]) == 'p'
    &&& lower_char(s[i + 6]) == 'e'
}

pub open spec fn spec_comment_start_state(m: TkModel) -> TkStep {
    if m.index < m.chars.len() {
        let c = m.chars[m.index];
        if c == '-' {
            proceed_to(consumed(m), State::CommentStartDashState)
        } else if c == '>' {
            // abrupt closing of an empty comment: recover by emitting it
            TkStep {
                m: TkModel { state: State::DataState, ..consumed(m) },
                out: TkOut::Emit(TokenM::Comment(m.comment)),
            }
        } else {
            proceed_to(m, State::CommentState)
        }
    } else {
        fail_at(m, m, None)
    }
}

pub open spec fn spec_comment_start_dash_state(m: TkModel) -> TkStep {
    if m.index < m.chars.len() {
        let c = m.chars[m.index];
        if c == '-' {
            proceed_to(consumed(m), State::CommentEndState)
        } else if c == '>' {
            // abrupt closing of an empty comment: recover by emitting it
            TkStep {
                m: TkModel { state: State::DataState, ..consumed(m) },
                out: TkOut::Emit(TokenM::Comment(m.comment)),
            }
        } else {
            TkStep {
                m: TkModel { state: State::CommentState, comment: m.comment.push('-'), ..m },
                out: TkOut::Proceed,
            }
        }
    } else {
        fail_at(m, m, None)
    }
}

pub open spec fn spec_comment_state(m: TkModel) -> TkStep {
    if m.index < m.chars.len() {
        let c = m.chars[m.index];
        if c == '<' || c == '\u{0000}' {
            fail_at(m, consumed(m), Some(c))
        } else if c == '-' {
            proceed_to(consumed(m), State::CommentEndDashState)
        } else {
            TkStep { m: TkModel { comment: m.comment.push(c), ..consumed(m) }, out: TkOut::Proceed }
        }
    } else {
        fail_at(m, m, None)
    }
}

pub open spec fn spec_comment_end_dash_state(m: TkModel) -> TkStep {
    if m.index < m.chars.len() {
        let c = m.chars[m.index];
        if c == '-' {
            proceed_to(consumed(m), State::CommentEndState)
        } else {
            TkStep {
                m: TkModel { state: State::CommentState, comment: m.comment.push('-'), ..m },
                out: TkOut::Proceed,
            }
        }
    } else {
        fail_at(m, m, None)
    }
}

pub open spec fn spec_comment_end_state(m: TkModel) -> TkStep {
    if m.index < m.chars.len() {
        let c = m.chars[m.index];
        if c == '>' {
            TkStep {
                m: TkModel { state: State::DataState, ..consumed(m) },
                out: TkOut::Emit(TokenM::Comment(m.comment)),
            }
        } else if c == '-' {
            // one dash too many: it belongs to the comment's data
            TkStep { m: TkModel { comment: m.comment.push('-'), ..consumed(m) }, out: TkOut::Proceed }
        } else if c == '!' {
            fail_at(m, consumed(m), Some(c))
        } else {
            // the two dashes did not close the comment: they belong to its data
            TkStep {
                m: TkModel {
                    state: State::CommentState,
                    comment: m.comment.push('-').push('-'),
                    ..m
                },
                out: TkOut::Proceed,
            }
        }
    } else {
        fail_at(m, m, None)
    }
}

pub open spec fn spec_doctype_state(m: TkModel) -> TkStep {
    if m.index < m.chars.len() {
        let c = m.chars[m.index];
        if is_ws(c) {
            proceed_to(consumed(m), State::BeforeDOCTYPENameState)
        } else {
            fail_at(m, consumed(m), Some(c))
        }
    } else {
        fail_at(m, m, None)
    }
}

pub open spec fn spec_before_doctype_name_state(m: TkModel) -> TkStep {
    if m.index < m.chars.len() {
        let c = m.chars[m.index];
        if is_ws(c) {
            proceed_to(consumed(m), State::BeforeDOCTYPENameState)
        } else if c == '\u{0000}' || c == '>' {
            fail_at(m, consumed(m), Some(c))
        } else {
            // an uppercase letter starts the name in lowercase form
            TkStep {
                m: TkModel {
                    state: State::DOCTYPENameState,
                    doctype_name: Some(seq![lower_char(c)]),
                    ..consumed(m)
                },
                out: TkOut::Proceed,
            }
        }
    } else {
        fail_at(m, m, None)
    }
}

pub open spec fn spec_doctype_name_state(m: TkModel) -> TkStep {
    if m.index < m.chars.len() {
        let c = m.chars[m.index];
        if is_ws(c) || c == '\u{0000}' {
            fail_at(m, consumed(m), Some(c))
        } else if c == '>' {
            TkStep {
                m: TkModel { state: State::DataState, ..consumed(m) },
                out: TkOut::Emit(TokenM::Doctype { name: m.doctype_name }),
            }
        } else {
            // an uppercase letter is appended in lowercase form
            let name2 = match m.doctype_name {
                Some(s) => Some(s.push(lower_char(c))),
                None => Some(seq![lower_char(c)]),
            };
            TkStep { m: TkModel { doctype_name: name2, ..consumed(m) }, out: TkOut::Proceed }
        }
    } else {
        fail_at(m, m, None)
    }
}

/// One step of the machine: dispatch on the state label.  States outside
/// the implemented subset halt at once, naming themselves and the next
/// input character.
pub open spec fn tk_step(m: TkModel) -> TkStep {
    match m.state {
        State::DataState => spec_data_state(m),
        State::TagOpenState => spec_tag_open_state(m),
        State::EndTagOpenState => spec_end_tag_open_state(m),
        State::TagNameState => spec_tag_name_state(m),
        State::BeforeAttributeNameState => spec_before_attribute_name_state(m),
        State::AttributeNameState => spec_attribute_name_state(m),
        State::BeforeAttributeValueState => spec_before_attribute_value_state(m),
        State::AttributeValueDoubleQuotedState => spec_attribute_value_double_quoted_state(m),
        State::AfterAttributeValueQuotedState => spec_after_attribute_value_quoted_state(m),
        State::MarkupDeclarationOpenState => spec_markup_declaration_open_state(m),
        State::CommentStartState => spec_comment_start_state(m),
        State::CommentStartDashState => spec_comment_start_dash_state(m),
        State::CommentState => spec_comment_state(m),
        State::CommentEndDashState => spec_comment_end_dash_state(m),
        State::CommentEndState => spec_comment_end_state(m),
        State::DOCTYPEState => spec_doctype_state(m),
        State::BeforeDOCTYPENameState => spec_before_doctype_name_state(m),
        State::DOCTYPENameState => spec_doctype_name_state(m),
        _ => fail_at(m, m, peek_m(m)),
    }
}

/// States that are entered by reconsuming (giving back) a character rank
/// below their sources, so that every non-emitting step decreases the fuel.
pub open spec fn state_rank(s: State) -> int {
    match s {
        State::TagNameState => 0,
        State::AttributeNameState => 0,
        State::CommentState => 0,
        _ => 1,
    }
}

/// The termination measure of the machine: twice the unread input, plus
/// the state's rank.
pub open spec fn tk_fuel(m: TkModel) -> int {
    2 * (m.chars.len() - m.index) + state_rank(m.state)
}

/// Each step preserves well-formedness and the input, never moves the
/// cursor backwards, strictly decreases the fuel while proceeding, only
/// emits well-formed tokens, consumes at least one character for every
/// emission but `EndOfFile`, and emits `EndOfFile` exactly at the end of
/// the input, leaving the machine unchanged.
pub proof fn lemma_tk_step(m: TkModel)
    requires
        m.wf(),
    ensures
        tk_step(m).m.wf(),
        tk_step(m).m.chars == m.chars,
        tk_step(m).m.eof_emitted == m.eof_emitted,
        tk_step(m).m.index >= m.index,
        tk_step(m).out is Proceed ==> tk_fuel(tk_step(m).m) < tk_fuel(m),
        tk_step(m).out matches TkOut::Emit(t) ==> token_wf(t) && (!(t is EndOfFile)
            ==> tk_step(m).m.index > m.index) && (t is EndOfFile ==> tk_step(m).m == m && m.index
            == m.chars.len()),
{
    assert(attrs_distinct(spec_flush_attr(m).tag_attrs)) by {
        lemma_flush_attr(m);
    }
    let mc = TkModel { state: State::DataState, ..consumed(m) };
    assert(attrs_distinct(spec_flush_attr(mc).tag_attrs)) by {
        lemma_flush_attr(mc);
    }
}

/// Finalizing the pending attribute keeps the accumulated names pairwise
/// distinct: a new attribute only joins when its name is not yet taken.
pub proof fn lemma_flush_attr(m: TkModel)
    requires
        attrs_distinct(m.tag_attrs),
    ensures
        attrs_distinct(spec_flush_attr(m).tag_attrs),
        spec_flush_attr(m).index == m.index,
        spec_flush_attr(m).chars == m.chars,
{
    if m.attr_name.len() != 0 && !has_attr_name(m.tag_attrs, m.attr_name) {
        let attrs2 = m.tag_attrs.push(AttrM { name: m.attr_name, value: m.attr_value });
        assert forall|i: int, j: int| 0 <= i < j < attrs2.len() implies (#[trigger] attrs2[i]).name
            != (#[trigger] attrs2[j]).name by {
            if j == attrs2.len() - 1 {
                assert(attrs2[i] == m.tag_attrs[i]);
            }
        }
    }
}

/// Running the machine from `m` to its next emission or halt: the final
/// model and what came out.
pub open spec fn tk_run(m: TkModel) -> (TkModel, Result<TokenM, TokenizerError>)
    decreases tk_fuel(m),
    when m.wf()
    via tk_run_decreases
{
    let s = tk_step(m);
    match s.out {
        TkOut::Proceed => tk_run(s.m),
        TkOut::Emit(t) => (s.m, Ok(t)),
        TkOut::Fail(e) => (s.m, Err(e)),
    }
}

#[via_fn]
proof fn tk_run_decreases(m: TkModel) {
    lemma_tk_step(m);
}

/// How an executable step result realizes a specification-level outcome.
pub open spec fn out_matches(out: TkOut, r: Result<Option<Token>, TokenizerError>) -> bool {
    match out {
        TkOut::Proceed => r matches Ok(None),
        TkOut::Emit(tm) => r matches Ok(Some(t)) && t@ == tm,
        TkOut::Fail(e) => r matches Err(e2) && e2 == e,
    }
}

/// How an executable token result realizes a specification-level one.
pub open spec fn result_matches(
    r: Result<Token, TokenizerError>,
    s: Result<TokenM, TokenizerError>,
) -> bool {
    match s {
        Ok(tm) => r matches Ok(t) && t@ == tm,
        Err(e) => r matches Err(e2) && e2 == e,
    }
}

/// How an executable pull result realizes a specification-level one.
pub open spec fn opt_matches(
    r: Result<Option<Token>, TokenizerError>,
    s: Result<Option<TokenM>, TokenizerError>,
) -> bool {
    match s {
        Ok(None) => r matches Ok(None),
        Ok(Some(tm)) => r matches Ok(Some(t)) && t@ == tm,
        Err(e) => r matches Err(e2) && e2 == e,
    }
}

/// What `lemma_tk_step` gives one step, `tk_run` enjoys end to end: the
/// input is preserved, the cursor never moves backwards, every emission
/// but `EndOfFile` consumes input, `EndOfFile` comes exactly at the end of
/// the input, and every emitted token is well-formed.
pub proof fn lemma_tk_run(m: TkModel)
    requires
        m.wf(),
    ensures
        tk_run(m).0.wf(),
        tk_run(m).0.chars == m.chars,
        tk_run(m).0.eof_emitted == m.eof_emitted,
        tk_run(m).0.index >= m.index,
        tk_run(m).1 matches Ok(t) ==> token_wf(t) && (!(t is EndOfFile) ==> tk_run(m).0.index
            > m.index) && (t is EndOfFile ==> tk_run(m).0.index == tk_run(m).0.chars.len()),
    decreases tk_fuel(m),
{
    lemma_tk_step(m);
    let s = tk_step(m);
    match s.out {
        TkOut::Proceed => {
            lemma_tk_run(s.m);
        },
        TkOut::Emit(t) => {},
        TkOut::Fail(e) => {},
    }
}

// ---------------------------------------------------------------------
// The executable machine.
// ---------------------------------------------------------------------

/// The machine state before any character has been read.
pub open spec fn init_model(chars: Seq<char>) -> TkModel {
    TkModel {
        chars,
        index: 0,
        state: State::DataState,
        doctype_name: None,
        tag_name: Seq::<char>::empty(),
        tag_attrs: Seq::<AttrM>::empty(),
        tag_type: TagType::StartTag,
        attr_name: Seq::<char>::empty(),
        attr_value: Seq::<char>::empty(),
        comment: Seq::<char>::empty(),
        eof_emitted: false,
    }
}

/// Pulling one stream element: nothing after the final `EndOfFile`,
/// otherwise the machine's next emission, latching `eof_emitted` when that
/// emission is the `EndOfFile`.
pub open spec fn tk_next(m: TkModel) -> (TkModel, Result<Option<TokenM>, TokenizerError>) {
    if m.eof_emitted {
        (m, Ok(None))
    } else {
        let (m2, res) = tk_run(m);
        match res {
            Ok(t) => (
                if t is EndOfFile {
                    TkModel { eof_emitted: true, ..m2 }
                } else {
                    m2
                },
                Ok(Some(t)),
            ),
            Err(e) => (m2, Err(e)),
        }
    }
}

/// An upper bound on the number of stream elements still to come: 0 once
/// the final `EndOfFile` is out, else one more than the unread input.
pub open spec fn stream_fuel(m: TkModel) -> int {
    if m.eof_emitted {
        0
    } else {
        m.chars.len() - m.index + 1
    }
}

/// Lazy-stream termination: for any finite input the token sequence is
/// finite, and it ends with exactly one `EndOfFile`.  Every successful
/// pull strictly decreases `stream_fuel`, which never goes negative; and a
/// pull made after the `EndOfFile` yields nothing and changes nothing.
pub proof fn lemma_stream_terminates(m: TkModel)
    requires
        m.wf(),
    ensures
        stream_fuel(m) >= 0,
        tk_next(m).0.wf(),
        m.eof_emitted ==> tk_next(m).0 == m && tk_next(m).1 == Ok::<
            Option<TokenM>,
            TokenizerError,
        >(None),
        tk_next(m).1 matches Ok(Some(t)) ==> stream_fuel(tk_next(m).0) < stream_fuel(m),
        tk_next(m).1 matches Ok(Some(t)) && !(t is EndOfFile) ==> tk_next(m).0.eof_emitted
            == false,
        tk_next(m).1 matches Ok(Some(t)) && t is EndOfFile ==> tk_next(m).0.eof_emitted,
{
    if !m.eof_emitted {
        lemma_tk_run(m);
    }
}

impl Tokenizer {
    /// A tokenizer over a string of already-decoded code points, in the
    /// data state with every scratch buffer empty.
    pub fn new(content: &str) -> (t: Tokenizer)
        ensures
            t@ == init_model(content@),
            t@.wf(),
    {
        let chars = str_to_chars(content);
        let t = Tokenizer {
            eof_emitted: false,
            chars,
            index: 0,
            current_state: State::DataState,
            current_doc_type: DOCTYPE { name: None },
            current_tag: Tag::new(),
            current_tag_type: TagType::StartTag,
            current_attribute: Attribute { name: String::new(), value: String::new() },
            current_comment_data: String::new(),
        };
        proof {
            assert(t@ =~= init_model(content@));
        }
        t
    }

    /// Advances the cursor and returns the code point under it, or `None`
    /// at end of input.
    fn consume_next_input_character(&mut self) -> (r: Option<char>)
        requires
            old(self)@.wf(),
        ensures
            old(self)@.index < old(self)@.chars.len() ==> r == Some(
                old(self)@.chars[old(self)@.index],
            ) && final(self)@ == consumed(old(self)@),
            old(self)@.index >= old(self)@.chars.len() ==> r is None && final(self)@ == old(
                self,
            )@,
    {
        if self.chars.len() > self.index {
            let c = self.chars[self.index];
            self.index = self.index + 1;
            proof {
                assert(self@ =~= consumed(old(self)@));
            }
            Some(c)
        } else {
            None
        }
    }

    /// Advances the cursor over a run whose length was checked by peeking.
    fn consume_next_characters(&mut self, characters_number: usize)
        requires
            old(self)@.index + characters_number <= old(self)@.chars.len(),
        ensures
            final(self)@ == (TkModel {
                index: old(self)@.index + characters_number,
                ..old(self)@
            }),
    {
        let n = self.chars.len();
        proof {
            assert(self.index + characters_number <= n);
        }
        self.index = self.index + characters_number;
        proof {
            assert(self@ =~= (TkModel {
                index: old(self)@.index + characters_number,
                ..old(self)@
            }));
        }
    }

    /// Steps the cursor back so that the next state re-reads the character
    /// just consumed.
    fn reconsume(&mut self)
        requires
            old(self)@.index >= 1,
        ensures
            final(self)@ == (TkModel { index: old(self)@.index - 1, ..old(self)@ }),
    {
        self.index = self.index - 1;
        proof {
            assert(self@ =~= (TkModel { index: old(self)@.index - 1, ..old(self)@ }));
        }
    }

    /// The code point under the cursor, without consuming it.
    fn peek_char(&self) -> (r: Option<char>)
        ensures
            r == peek_m(self@),
    {
        if self.index < self.chars.len() {
            Some(self.chars[self.index])
        } else {
            None
        }
    }

    /// Finalizes the attribute under construction, dropping it when its
    /// name is already taken on this tag (the duplicate-attribute rule).
    fn add_current_attribute_to_current_tag(&mut self)
        ensures
            final(self)@ == spec_flush_attr(old(self)@),
    {
        if self.current_attribute.name.as_str().unicode_len() > 0 {
            let mut found = false;
            let n = self.current_tag.attributes.len();
            let mut i: usize = 0;
            while i < n
                invariant
                    i <= n,
                    n == self.current_tag.attributes@.len(),
                    self == old(self),
                    found ==> has_attr_name(self@.tag_attrs, self@.attr_name),
                    !found ==> forall|k: int|
                        0 <= k < i ==> (#[trigger] self@.tag_attrs[k]).name != self@.attr_name,
                decreases n - i,
            {
                proof {
                    assert(self@.tag_attrs[i as int] == self.current_tag.attributes@[i as int]@);
                }
                if self.current_tag.attributes[i].name == self.current_attribute.name {
                    found = true;
                }
                i = i + 1;
            }
            if !found {
                let name = self.current_attribute.name.clone();
                let value = self.current_attribute.value.clone();
                self.current_tag.attributes.push(Attribute { name, value });
            }
            self.current_attribute = Attribute { name: String::new(), value: String::new() };
            proof {
                assert(self@ =~~= spec_flush_attr(old(self)@));
            }
        }
    }

    /// Completes the tag under construction as a start or end tag token.
    fn build_current_tag_token(&mut self) -> (t: Token)
        ensures
            final(self)@ == spec_build_tag(old(self)@).0,
            t@ == spec_build_tag(old(self)@).1,
    {
        self.add_current_attribute_to_current_tag();
        let name = self.current_tag.name.clone();
        let attributes = clone_attrs(&self.current_tag.attributes);
        let tag = Tag { name, attributes };
        proof {
            assert(tag@ =~~= (TagM {
                name: spec_build_tag(old(self)@).0.tag_name,
                attrs: spec_build_tag(old(self)@).0.tag_attrs,
            }));
        }
        match self.current_tag_type {
            TagType::StartTag => Token::StartTag(tag),
            TagType::EndTag => Token::EndTag(tag),
        }
    }

    fn data_state(&mut self) -> (r: Result<Option<Token>, TokenizerError>)
        requires
            old(self)@.wf(),
        ensures
            final(self)@ == spec_data_state(old(self)@).m,
            out_matches(spec_data_state(old(self)@).out, r),
    {
        if let Some(c) = self.consume_next_input_character() {
            if c == '&' || c == '\u{0000}' {
                Err(TokenizerError::UnsupportedState { state: self.current_state, ch: Some(c) })
            } else if c == '<' {
                self.current_state = State::TagOpenState;
                proof {
                    assert(self@ =~= spec_data_state(old(self)@).m);
                }
                Ok(None)
            } else {
                Ok(Some(Token::Character(c)))
            }
        } else {
            Ok(Some(Token::EndOfFile))
        }
    }

    fn tag_open_state(&mut self) -> (r: Result<Option<Token>, TokenizerError>)
        requires
            old(self)@.wf(),
        ensures
            final(self)@ == spec_tag_open_state(old(self)@).m,
            out_matches(spec_tag_open_state(old(self)@).out, r),
    {
        if let Some(c) = self.consume_next_input_character() {
            if c == '!' {
                self.current_state = State::MarkupDeclarationOpenState;
                proof {
                    assert(self@ =~= spec_tag_open_state(old(self)@).m);
                }
                Ok(None)
            } else if c == '/' {
                self.current_state = State::EndTagOpenState;
                proof {
                    assert(self@ =~= spec_tag_open_state(old(self)@).m);
                }
                Ok(None)
            } else if is_ascii_alpha(c) {
                self.current_tag_type = TagType::StartTag;
                self.current_tag = Tag::new();
                self.reconsume();
                self.current_state = State::TagNameState;
                proof {
                    assert(self@ =~~= spec_tag_open_state(old(self)@).m);
                }
                Ok(None)
            } else {
                Err(TokenizerError::UnsupportedState { state: self.current_state, ch: Some(c) })
            }
        } else {
            Err(TokenizerError::UnsupportedState { state: self.current_state, ch: None })
        }
    }

    fn end_tag_open_state(&mut self) -> (r: Result<Option<Token>, TokenizerError>)
        requires
            old(self)@.wf(),
        ensures
            final(self)@ == spec_end_tag_open_state(old(self)@).m,
            out_matches(spec_end_tag_open_state(old(self)@).out, r),
    {
        if let Some(c) = self.consume_next_input_character() {
            if is_ascii_alpha(c) {
                self.current_tag_type = TagType::EndTag;
                self.current_tag = Tag::new();
                self.reconsume();
                self.current_state = State::TagNameState;
                proof {
                    assert(self@ =~~= spec_end_tag_open_state(old(self)@).m);
                }
                Ok(None)
            } else {
                Err(TokenizerError::UnsupportedState { state: self.current_state, ch: Some(c) })
            }
        } else {
            Err(TokenizerError::UnsupportedState { state: self.current_state, ch: None })
        }
    }

    fn tag_name_state(&mut self) -> (r: Result<Option<Token>, TokenizerError>)
        requires
            old(self)@.wf(),
        ensures
            final(self)@ == spec_tag_name_state(old(self)@).m,
            out_matches(spec_tag_name_state(old(self)@).out, r),
    {
        if let Some(c) = self.consume_next_input_character() {
            if is_one_of_tab_lf_ff_space(c) {
                self.current_state = State::BeforeAttributeNameState;
                proof {
                    assert(self@ =~= spec_tag_name_state(old(self)@).m);
                }
                Ok(None)
            } else if c == '/' {
                Err(TokenizerError::UnsupportedState { state: self.current_state, ch: Some(c) })
            } else if c == '>' {
                self.current_state = State::DataState;
                let t = self.build_current_tag_token();
                Ok(Some(t))
            } else if is_ascii_upper(c) {
                push_char(&mut self.current_tag.name, to_lower(c));
                proof {
                    assert(self@ =~= spec_tag_name_state(old(self)@).m);
                }
                Ok(None)
            } else if c == '\u{0000}' {
                Err(TokenizerError::UnsupportedState { state: self.current_state, ch: Some(c) })
            } else {
                push_char(&mut self.current_tag.name, c);
                proof {
                    assert(self@ =~= spec_tag_name_state(old(self)@).m);
                }
                Ok(None)
            }
        } else {
            Err(TokenizerError::UnsupportedState { state: self.current_state, ch: None })
        }
    }

    fn before_attribute_name_state(&mut self) -> (r: Result<Option<Token>, TokenizerError>)
        requires
            old(self)@.wf(),
        ensures
            final(self)@ == spec_before_attribute_name_state(old(self)@).m,
            out_matches(spec_before_attribute_name_state(old(self)@).out, r),
    {
        if let Some(c) = self.consume_next_input_character() {
            if is_one_of_tab_lf_ff_space(c) {
                self.current_state = State::BeforeAttributeNameState;
                proof {
                    assert(self@ =~= spec_before_attribute_name_state(old(self)@).m);
                }
                Ok(None)
            } else if c == '/' || c == '>' || c == '=' {
                Err(TokenizerError::UnsupportedState { state: self.current_state, ch: Some(c) })
            } else {
                self.add_current_attribute_to_current_tag();
                self.reconsume();
                self.current_state = State::AttributeNameState;
                proof {
                    assert(self@ =~~= spec_before_attribute_name_state(old(self)@).m);
                }
                Ok(None)
            }
        } else {
            Err(TokenizerError::UnsupportedState { state: self.current_state, ch: None })
        }
    }

    fn attribute_name_state(&mut self) -> (r: Result<Option<Token>, TokenizerError>)
        requires
            old(self)@.wf(),
        ensures
            final(self)@ == spec_attribute_name_state(old(self)@).m,
            out_matches(spec_attribute_name_state(old(self)@).out, r),
    {
        if let Some(c) = self.consume_next_input_character() {
            if is_one_of_tab_lf_ff_space(c) || c == '/' || c == '>' {
                Err(TokenizerError::UnsupportedState { state: self.current_state, ch: Some(c) })
            } else if c == '=' {
                self.current_state = State::BeforeAttributeValueState;
                proof {
                    assert(self@ =~= spec_attribute_name_state(old(self)@).m);
                }
                Ok(None)
            } else if is_ascii_upper(c) || c == '\u{0000}' || c == '"' || c == '\'' || c == '<' {
                Err(TokenizerError::UnsupportedState { state: self.current_state, ch: Some(c) })
            } else {
                push_char(&mut self.current_attribute.name, c);
                proof {
                    assert(self@ =~= spec_attribute_name_state(old(self)@).m);
                }
                Ok(None)
            }
        } else {
            Err(TokenizerError::UnsupportedState { state: self.current_state, ch: None })
        }
    }

    fn before_attribute_value_state(&mut self) -> (r: Result<Option<Token>, TokenizerError>)
        requires
            old(self)@.wf(),
        ensures
            final(self)@ == spec_before_attribute_value_state(old(self)@).m,
            out_matches(spec_before_attribute_value_state(old(self)@).out, r),
    {
        if let Some(c) = self.consume_next_input_character() {
            if is_one_of_tab_lf_ff_space(c) {
                self.current_state = State::BeforeAttributeValueState;
                proof {
                    assert(self@ =~= spec_before_attribute_value_state(old(self)@).m);
                }
                Ok(None)
            } else if c == '"' {
                self.current_state = State::AttributeValueDoubleQuotedState;
                proof {
                    assert(self@ =~= spec_before_attribute_value_state(old(self)@).m);
                }
                Ok(None)
            } else {
                Err(TokenizerError::UnsupportedState { state: self.current_state, ch: Some(c) })
            }
        } else {
            Err(TokenizerError::UnsupportedState { state: self.current_state, ch: None })
        }
    }

    fn attribute_value_double_quoted_state(&mut self) -> (r: Result<Option<Token>, TokenizerError>)
        requires
            old(self)@.wf(),
        ensures
            final(self)@ == spec_attribute_value_double_quoted_state(old(self)@).m,
            out_matches(spec_attribute_value_double_quoted_state(old(self)@).out, r),
    {
        if let Some(c) = self.consume_next_input_character() {
            if c == '"' {
                self.current_state = State::AfterAttributeValueQuotedState;
                proof {
                    assert(self@ =~= spec_attribute_value_double_quoted_state(old(self)@).m);
                }
                Ok(None)
            } else if c == '&' || c == '\u{0000}' {
                Err(TokenizerError::UnsupportedState { state: self.current_state, ch: Some(c) })
            } else {
                push_char(&mut self.current_attribute.value, c);
                proof {
                    assert(self@ =~= spec_attribute_value_double_quoted_state(old(self)@).m);
                }
                Ok(None)
            }
        } else {
            Err(TokenizerError::UnsupportedState { state: self.current_state, ch: None })
        }
    }

    fn after_attribute_value_quoted_state(&mut self) -> (r: Result<Option<Token>, TokenizerError>)
        requires
            old(self)@.wf(),
        ensures
            final(self)@ == spec_after_attribute_value_quoted_state(old(self)@).m,
            out_matches(spec_after_attribute_value_quoted_state(old(self)@).out, r),
    {
        if let Some(c) = self.consume_next_input_character() {
            if is_one_of_tab_lf_ff_space(c) {
                self.current_state = State::BeforeAttributeNameState;
                proof {
                    assert(self@ =~= spec_after_attribute_value_quoted_state(old(self)@).m);
                }
                Ok(None)
            } else if c == '>' {
                self.current_state = State::DataState;
                let t = self.build_current_tag_token();
                Ok(Some(t))
            } else {
                Err(TokenizerError::UnsupportedState { state: self.current_state, ch: Some(c) })
            }
        } else {
            Err(TokenizerError::UnsupportedState { state: self.current_state, ch: None })
        }
    }

    fn markup_declaration_open_state(&mut self) -> (r: Result<Option<Token>, TokenizerError>)
        requires
            old(self)@.wf(),
        ensures
            final(self)@ == spec_markup_declaration_open_state(old(self)@).m,
            out_matches(spec_markup_declaration_open_state(old(self)@).out, r),
    {
        let n = self.chars.len();
        if n - self.index >= 2 && self.chars[self.index] == '-' && self.chars[self.index + 1]
            == '-' {
            self.consume_next_characters(2);
            self.current_comment_data = String::new();
            self.current_state = State::CommentStartState;
            proof {
                assert(self@ =~= spec_markup_declaration_open_state(old(self)@).m);
            }
            Ok(None)
        } else if n - self.index >= 7 && to_lower(self.chars[self.index]) == 'd' && to_lower(
            self.chars[self.index + 1],
        ) == 'o' && to_lower(self.chars[self.index + 2]) == 'c' && to_lower(
            self.chars[self.index + 3],
        ) == 't' && to_lower(self.chars[self.index + 4]) == 'y' && to_lower(
            self.chars[self.index + 5],
        ) == 'p' && to_lower(self.chars[self.index + 6]) == 'e' {
            self.consume_next_characters(7);
            self.current_state = State::DOCTYPEState;
            proof {
                assert(self@ =~= spec_markup_declaration_open_state(old(self)@).m);
            }
            Ok(None)
        } else {
            Err(TokenizerError::UnsupportedMarkup)
        }
    }

    fn comment_start_state(&mut self) -> (r: Result<Option<Token>, TokenizerError>)
        requires
            old(self)@.wf(),
        ensures
            final(self)@ == spec_comment_start_state(old(self)@).m,
            out_matches(spec_comment_start_state(old(self)@).out, r),
    {
        if let Some(c) = self.consume_next_input_character() {
            if c == '-' {
                self.current_state = State::CommentStartDashState;
                proof {
                    assert(self@ =~= spec_comment_start_state(old(self)@).m);
                }
                Ok(None)
            } else if c == '>' {
                self.current_state = State::DataState;
                let data = self.current_comment_data.clone();
                Ok(Some(Token::Comment(data)))
            } else {
                self.reconsume();
                self.current_state = State::CommentState;
                proof {
                    assert(self@ =~= spec_comment_start_state(old(self)@).m);
                }
                Ok(None)
            }
        } else {
            Err(TokenizerError::UnsupportedState { state: self.current_state, ch: None })
        }
    }

    fn comment_start_dash_state(&mut self) -> (r: Result<Option<Token>, TokenizerError>)
        requires
            old(self)@.wf(),
        ensures
            final(self)@ == spec_comment_start_dash_state(old(self)@).m,
            out_matches(spec_comment_start_dash_state(old(self)@).out, r),
    {
        if let Some(c) = self.consume_next_input_character() {
            if c == '-' {
                self.current_state = State::CommentEndState;
                proof {
                    assert(self@ =~= spec_comment_start_dash_state(old(self)@).m);
                }
                Ok(None)
            } else if c == '>' {
                self.current_state = State::DataState;
                let data = self.current_comment_data.clone();
                Ok(Some(Token::Comment(data)))
            } else {
                push_char(&mut self.current_comment_data, '-');
                self.reconsume();
                self.current_state = State::CommentState;
                proof {
                    assert(self@ =~= spec_comment_start_dash_state(old(self)@).m);
                }
                Ok(None)
            }
        } else {
            Err(TokenizerError::UnsupportedState { state: self.current_state, ch: None })
        }
    }

    fn comment_state(&mut self) -> (r: Result<Option<Token>, TokenizerError>)
        requires
            old(self)@.wf(),
        ensures
            final(self)@ == spec_comment_state(old(self)@).m,
            out_matches(spec_comment_state(old(self)@).out, r),
    {
        if let Some(c) = self.consume_next_input_character() {
            if c == '<' || c == '\u{0000}' {
                Err(TokenizerError::UnsupportedState { state: self.current_state, ch: Some(c) })
            } else if c == '-' {
                self.current_state = State::CommentEndDashState;
                proof {
                    assert(self@ =~= spec_comment_state(old(self)@).m);
                }
                Ok(None)
            } else {
                push_char(&mut self.current_comment_data, c);
                proof {
                    assert(self@ =~= spec_comment_state(old(self)@).m);
                }
                Ok(None)
            }
        } else {
            Err(TokenizerError::UnsupportedState { state: self.current_state, ch: None })
        }
    }

    fn comment_end_dash_state(&mut self) -> (r: Result<Option<Token>, TokenizerError>)
        requires
            old(self)@.wf(),
        ensures
            final(self)@ == spec_comment_end_dash_state(old(self)@).m,
            out_matches(spec_comment_end_dash_state(old(self)@).out, r),
    {
        if let Some(c) = self.consume_next_input_character() {
            if c == '-' {
                self.current_state = State::CommentEndState;
                proof {
                    assert(self@ =~= spec_comment_end_dash_state(old(self)@).m);
                }
                Ok(None)
            } else {
                push_char(&mut self.current_comment_data, '-');
                self.reconsume();
                self.current_state = State::CommentState;
                proof {
                    assert(self@ =~= spec_comment_end_dash_state(old(self)@).m);
                }
                Ok(None)
            }
        } else {
            Err(TokenizerError::UnsupportedState { state: self.current_state, ch: None })
        }
    }

    fn comment_end_state(&mut self) -> (r: Result<Option<Token>, TokenizerError>)
        requires
            old(self)@.wf(),
        ensures
            final(self)@ == spec_comment_end_state(old(self)@).m,
            out_matches(spec_comment_end_state(old(self)@).out, r),
    {
        if let Some(c) = self.consume_next_input_character() {
            if c == '>' {
                self.current_state = State::DataState;
                let data = self.current_comment_data.clone();
                Ok(Some(Token::Comment(data)))
            } else if c == '-' {
                push_char(&mut self.current_comment_data, '-');
                proof {
                    assert(self@ =~= spec_comment_end_state(old(self)@).m);
                }
                Ok(None)
            } else if c == '!' {
                Err(TokenizerError::UnsupportedState { state: self.current_state, ch: Some(c) })
            } else {
                push_char(&mut self.current_comment_data, '-');
                push_char(&mut self.current_comment_data, '-');
                self.reconsume();
                self.current_state = State::CommentState;
                proof {
                    assert(self@ =~= spec_comment_end_state(old(self)@).m);
                }
                Ok(None)
            }
        } else {
            Err(TokenizerError::UnsupportedState { state: self.current_state, ch: None })
        }
    }

    fn doctype_state(&mut self) -> (r: Result<Option<Token>, TokenizerError>)
        requires
            old(self)@.wf(),
        ensures
            final(self)@ == spec_doctype_state(old(self)@).m,
            out_matches(spec_doctype_state(old(self)@).out, r),
    {
        if let Some(c) = self.consume_next_input_character() {
            if is_one_of_tab_lf_ff_space(c) {
                self.current_state = State::BeforeDOCTYPENameState;
                proof {
                    assert(self@ =~= spec_doctype_state(old(self)@).m);
                }
                Ok(None)
            } else {
                Err(TokenizerError::UnsupportedState { state: self.current_state, ch: Some(c) })
            }
        } else {
            Err(TokenizerError::UnsupportedState { state: self.current_state, ch: None })
        }
    }

    fn before_doctype_name_state(&mut self) -> (r: Result<Option<Token>, TokenizerError>)
        requires
            old(self)@.wf(),
        ensures
            final(self)@ == spec_before_doctype_name_state(old(self)@).m,
            out_matches(spec_before_doctype_name_state(old(self)@).out, r),
    {
        if let Some(c) = self.consume_next_input_character() {
            if is_one_of_tab_lf_ff_space(c) {
                self.current_state = State::BeforeDOCTYPENameState;
                proof {
                    assert(self@ =~= spec_before_doctype_name_state(old(self)@).m);
                }
                Ok(None)
            } else if c == '\u{0000}' || c == '>' {
                Err(TokenizerError::UnsupportedState { state: self.current_state, ch: Some(c) })
            } else {
                let mut name = String::new();
                push_char(&mut name, to_lower(c));
                self.current_doc_type = DOCTYPE { name: Some(name) };
                self.current_state = State::DOCTYPENameState;
                proof {
                    assert(self@.doctype_name matches Some(s) && s =~= seq![lower_char(c)]);
                    assert(self@ =~= spec_before_doctype_name_state(old(self)@).m);
                }
                Ok(None)
            }
        } else {
            Err(TokenizerError::UnsupportedState { state: self.current_state, ch: None })
        }
    }

    fn doctype_name_state(&mut self) -> (r: Result<Option<Token>, TokenizerError>)
        requires
            old(self)@.wf(),
        ensures
            final(self)@ == spec_doctype_name_state(old(self)@).m,
            out_matches(spec_doctype_name_state(old(self)@).out, r),
    {
        if let Some(c) = self.consume_next_input_character() {
            if is_one_of_tab_lf_ff_space(c) || c == '\u{0000}' {
                Err(TokenizerError::UnsupportedState { state: self.current_state, ch: Some(c) })
            } else if c == '>' {
                self.current_state = State::DataState;
                let name = match &self.current_doc_type.name {
                    Some(s) => Some(s.clone()),
                    None => None,
                };
                Ok(Some(Token::Doctype(DOCTYPE { name })))
            } else {
                let lowered = to_lower(c);
                match &mut self.current_doc_type.name {
                    Some(s) => {
                        push_char(s, lowered);
                    },
                    None => {
                        let mut name = String::new();
                        push_char(&mut name, lowered);
                        self.current_doc_type = DOCTYPE { name: Some(name) };
                    },
                }
                proof {
                    assert(self@ =~= spec_doctype_name_state(old(self)@).m);
                }
                Ok(None)
            }
        } else {
            Err(TokenizerError::UnsupportedState { state: self.current_state, ch: None })
        }
    }

    /// Pulls the next token: runs the state machine from the current state
    /// until it emits, following exactly the specification `tk_run`.  Every
    /// emitted tag carries pairwise distinct attribute names; every token
    /// but `EndOfFile` consumes at least one character; and `EndOfFile`
    /// comes exactly when the whole input has been read.
    pub fn next_token(&mut self) -> (r: Result<Token, TokenizerError>)
        requires
            old(self)@.wf(),
        ensures
            final(self)@ == tk_run(old(self)@).0,
            result_matches(r, tk_run(old(self)@).1),
            final(self)@.wf(),
            final(self)@.chars == old(self)@.chars,
            final(self)@.eof_emitted == old(self)@.eof_emitted,
            final(self)@.index >= old(self)@.index,
            r matches Ok(t) ==> token_wf(t@) && (!(t@ is EndOfFile) ==> final(self)@.index > old(
                self,
            )@.index) && (t@ is EndOfFile ==> final(self)@.index == final(self)@.chars.len()),
    {
        proof {
            lemma_tk_run(old(self)@);
        }
        #[verifier::loop_isolation(false)]
        loop
            invariant
                self@.wf(),
                tk_run(self@) == tk_run(old(self)@),
            decreases tk_fuel(self@),
        {
            let ghost prev = self@;
            proof {
                lemma_tk_step(prev);
            }
            let step_result = match self.current_state {
                State::DataState => self.data_state(),
                State::TagOpenState => self.tag_open_state(),
                State::EndTagOpenState => self.end_tag_open_state(),
                State::TagNameState => self.tag_name_state(),
                State::BeforeAttributeNameState => self.before_attribute_name_state(),
                State::AttributeNameState => self.attribute_name_state(),
                State::BeforeAttributeValueState => self.before_attribute_value_state(),
                State::AttributeValueDoubleQuotedState => self.attribute_value_double_quoted_state(
                ),
                State::AfterAttributeValueQuotedState => self.after_attribute_value_quoted_state(),
                State::MarkupDeclarationOpenState => self.markup_declaration_open_state(),
                State::CommentStartState => self.comment_start_state(),
                State::CommentStartDashState => self.comment_start_dash_state(),
                State::CommentState => self.comment_state(),
                State::CommentEndDashState => self.comment_end_dash_state(),
                State::CommentEndState => self.comment_end_state(),
                State::DOCTYPEState => self.doctype_state(),
                State::BeforeDOCTYPENameState => self.before_doctype_name_state(),
                State::DOCTYPENameState => self.doctype_name_state(),
                _ => {
                    let ch = self.peek_char();
                    Err(TokenizerError::UnsupportedState { state: self.current_state, ch })
                },
            };
            proof {
                assert(self@ == tk_step(prev).m);
                assert(out_matches(tk_step(prev).out, step_result));
            }
            match step_result {
                Ok(None) => {},
                Ok(Some(t)) => {
                    return Ok(t);
                },
                Err(e) => {
                    return Err(e);
                },
            }
        }
    }

    /// Pulls one element of the lazy token stream: `Ok(None)` forever once
    /// the single `EndOfFile` token has been handed out, else the next
    /// token.  With `next_token`'s progress bound this makes the stream
    /// finite: each yielded token strictly decreases `stream_fuel`.
    pub fn next(&mut self) -> (r: Result<Option<Token>, TokenizerError>)
        requires
            old(self)@.wf(),
        ensures
            final(self)@ == tk_next(old(self)@).0,
            opt_matches(r, tk_next(old(self)@).1),
            final(self)@.wf(),
            old(self)@.eof_emitted ==> (r matches Ok(None)) && final(self)@ == old(self)@,
            r matches Ok(Some(t)) ==> token_wf(t@) && stream_fuel(final(self)@) < stream_fuel(
                old(self)@,
            ),
            r matches Ok(Some(t)) && t@ is EndOfFile ==> final(self)@.eof_emitted,
            r matches Ok(Some(t)) && !(t@ is EndOfFile) ==> final(self)@.eof_emitted == false,
    {
        proof {
            lemma_stream_terminates(old(self)@);
        }
        if self.eof_emitted {
            return Ok(None);
        }
        let tok = self.next_token();
        match tok {
            Ok(t) => {
                let is_eof = matches!(t, Token::EndOfFile);
                if is_eof {
                    self.eof_emitted = true;
                    proof {
                        assert(self@ =~= (TkModel {
                            eof_emitted: true,
                            ..tk_run(old(self)@).0
                        }));
                    }
                }
                Ok(Some(t))
            },
            Err(e) => Err(e),
        }
    }
}

} // verus!
