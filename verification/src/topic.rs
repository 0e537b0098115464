//! Topic names and topic filters.
//!
//! A topic filter may hold `+`, which stands for one level, and `#`, which
//! stands for all remaining levels and must be the last one. A topic name may
//! hold neither.
use crate::error::{MqttError, Violation};
use crate::text;
use crate::text::{contains_ascii, split_ascii, starts_with_ascii, str_eq};
use vstd::prelude::*;
use vstd::string::*;
use vstd::utf8::*;

verus! {

/// The longest topic in bytes.
pub const MAX_TOPIC_LEN: usize = 65535;

const SLASH: u8 = 0x2F;

const PLUS: u8 = 0x2B;

const HASH: u8 = 0x23;

const DOLLAR: u8 = 0x24;

/// What one level of a path matches.
#[derive(Debug, Clone, PartialEq, Eq)]
pub enum PathPattern {
    /// The level with this text.
    Literal(String),
    /// A level that this expression matches.
    Regex(String),
    /// Any one level.
    Any,
    /// All remaining levels.
    AnyPath,
}

/// A token of a path pattern.
#[derive(Debug, Clone, PartialEq, Eq)]
pub enum RawToken {
    Slash,
    AngleStart,
    AngleClose,
    Ident(String),
    Type(TypeKind),
    Literal(String),
}

/// The type in an angle group.
#[derive(Debug, Clone, Copy, PartialEq, Eq, Structural)]
pub enum TypeKind {
    /// All remaining levels.
    Path,
}

/// Why a filter cannot be tokenized.
#[derive(Debug, Clone, PartialEq, Eq)]
pub enum PatternError {
    UnexpectedToken { at: usize, token: RawToken },
    AnyPathMixedWithOtherContent { at: usize },
}

// ----------------------------------------------------------------------------
// Model
// ----------------------------------------------------------------------------

#[verifier::ext_equal]
pub enum PatternModel {
    Literal(Seq<char>),
    Regex(Seq<char>),
    Any,
    AnyPath,
}

#[verifier::ext_equal]
pub enum TokenModel {
    Slash,
    AngleStart,
    AngleClose,
    Ident(Seq<char>),
    Type(TypeKind),
    Literal(Seq<char>),
}

#[verifier::ext_equal]
pub enum PatternErrorModel {
    UnexpectedToken { at: nat, token: TokenModel },
    AnyPathMixedWithOtherContent { at: nat },
}

impl View for PathPattern {
    type V = PatternModel;

    open spec fn view(&self) -> PatternModel {
        match *self {
            PathPattern::Literal(s) => PatternModel::Literal(s@),
            PathPattern::Regex(s) => PatternModel::Regex(s@),
            PathPattern::Any => PatternModel::Any,
            PathPattern::AnyPath => PatternModel::AnyPath,
        }
    }
}

impl View for RawToken {
    type V = TokenModel;

    open spec fn view(&self) -> TokenModel {
        match *self {
            RawToken::Slash => TokenModel::Slash,
            RawToken::AngleStart => TokenModel::AngleStart,
            RawToken::AngleClose => TokenModel::AngleClose,
            RawToken::Ident(s) => TokenModel::Ident(s@),
            RawToken::Type(t) => TokenModel::Type(t),
            RawToken::Literal(s) => TokenModel::Literal(s@),
        }
    }
}

impl View for PatternError {
    type V = PatternErrorModel;

    open spec fn view(&self) -> PatternErrorModel {
        match *self {
            PatternError::UnexpectedToken { at, token } => PatternErrorModel::UnexpectedToken {
                at: at as nat,
                token: token@,
            },
            PatternError::AnyPathMixedWithOtherContent { at } =>
                PatternErrorModel::AnyPathMixedWithOtherContent { at: at as nat },
        }
    }
}

pub open spec fn patterns_of(v: Seq<PathPattern>) -> Seq<PatternModel> {
    Seq::new(v.len(), |i: int| v[i]@)
}

pub open spec fn tokens_of(v: Seq<RawToken>) -> Seq<TokenModel> {
    Seq::new(v.len(), |i: int| v[i]@)
}

/// The level that stands for any one level.
pub open spec fn plus() -> Seq<char> {
    seq!['+']
}

/// The level that stands for all remaining levels.
pub open spec fn hash() -> Seq<char> {
    seq!['#']
}

/// Whether a text holds a wildcard character.
pub open spec fn has_wildcard(s: Seq<char>) -> bool {
    s.contains('+') || s.contains('#')
}

/// Whether a topic's first character is `$`.
pub open spec fn is_dollar(s: Seq<char>) -> bool {
    s.len() > 0 && s[0] == '$'
}

/// What is wrong with one level of a filter.
pub open spec fn level_fault(segs: Seq<Seq<char>>, i: int) -> Option<Violation> {
    if segs[i] == plus() {
        None
    } else if segs[i] == hash() {
        if i != segs.len() - 1 {
            Some(Violation::HashWildcardNotTerminal)
        } else {
            None
        }
    } else if has_wildcard(segs[i]) {
        Some(Violation::WildcardMixedWithLiteral)
    } else {
        None
    }
}

/// The first fault from a level on.
pub open spec fn first_fault(segs: Seq<Seq<char>>, i: int) -> Option<Violation>
    decreases segs.len() - i,
{
    if i >= segs.len() {
        None
    } else {
        match level_fault(segs, i) {
            Some(v) => Some(v),
            None => first_fault(segs, i + 1),
        }
    }
}

/// Whether a filter is acceptable, and why not.
pub open spec fn check_filter(s: Seq<char>) -> Result<(), MqttError> {
    if s.len() == 0 {
        Err(MqttError::Protocol(Violation::EmptyTopic))
    } else if encode_utf8(s).len() > MAX_TOPIC_LEN {
        Err(MqttError::Protocol(Violation::TopicTooLong))
    } else {
        match first_fault(text::levels(s), 0) {
            Some(v) => Err(MqttError::Protocol(v)),
            None => Ok(()),
        }
    }
}

/// Whether a topic name is acceptable, and why not.
pub open spec fn check_topic(s: Seq<char>) -> Result<(), MqttError> {
    if s.len() == 0 {
        Err(MqttError::Protocol(Violation::EmptyTopic))
    } else if encode_utf8(s).len() > MAX_TOPIC_LEN {
        Err(MqttError::Protocol(Violation::TopicTooLong))
    } else if has_wildcard(s) {
        Err(MqttError::Protocol(Violation::WildcardInPublishTopic))
    } else {
        Ok(())
    }
}

/// The pattern of one level of a filter.
pub open spec fn level_pattern(seg: Seq<char>) -> PatternModel {
    if seg == plus() {
        PatternModel::Any
    } else if seg == hash() {
        PatternModel::AnyPath
    } else {
        PatternModel::Literal(seg)
    }
}

/// The patterns of a filter's levels.
pub open spec fn filter_patterns(s: Seq<char>) -> Seq<PatternModel> {
    let segs = text::levels(s);
    Seq::new(segs.len(), |i: int| level_pattern(segs[i]))
}

/// The patterns of a topic name's levels: all literal.
pub open spec fn topic_patterns(s: Seq<char>) -> Seq<PatternModel> {
    let segs = text::levels(s);
    Seq::new(segs.len(), |i: int| PatternModel::Literal(segs[i]))
}

/// The level of a filter that stands for a pattern. An expression has no filter
/// of its own and becomes any one level.
pub open spec fn pattern_text(p: PatternModel) -> Seq<char> {
    match p {
        PatternModel::Literal(s) => s,
        PatternModel::Any => plus(),
        PatternModel::Regex(_) => plus(),
        PatternModel::AnyPath => hash(),
    }
}

/// The filter that stands for a path.
pub open spec fn wire_filter(path: Seq<PatternModel>) -> Seq<char> {
    text::join_chars(Seq::new(path.len(), |i: int| pattern_text(path[i])), '/')
}

/// The tokens of one level's pattern.
pub open spec fn pattern_tokens(p: PatternModel) -> Seq<TokenModel> {
    match p {
        PatternModel::Literal(s) => seq![TokenModel::Literal(s)],
        PatternModel::AnyPath => seq![
            TokenModel::AngleStart,
            TokenModel::Type(TypeKind::Path),
            TokenModel::AngleClose,
        ],
        _ => seq![TokenModel::AngleStart, TokenModel::Ident(seq!['_']), TokenModel::AngleClose],
    }
}

/// The tokens of a path: those of each level, with a slash between two levels.
pub open spec fn path_tokens(path: Seq<PatternModel>) -> Seq<TokenModel>
    decreases path.len(),
{
    if path.len() == 0 {
        seq![]
    } else if path.len() == 1 {
        pattern_tokens(path[0])
    } else {
        path_tokens(path.drop_last()) + seq![TokenModel::Slash] + pattern_tokens(path.last())
    }
}

/// The position in bytes of a level.
pub open spec fn level_offset(segs: Seq<Seq<char>>, i: int) -> nat
    decreases i,
{
    if i <= 0 {
        0
    } else {
        level_offset(segs, i - 1) + encode_utf8(segs[i - 1]).len() + 1
    }
}

/// The error for a fault in a level.
pub open spec fn fault_error(segs: Seq<Seq<char>>, i: int) -> PatternErrorModel {
    if segs[i] == hash() {
        PatternErrorModel::AnyPathMixedWithOtherContent { at: level_offset(segs, i) }
    } else {
        PatternErrorModel::UnexpectedToken {
            at: level_offset(segs, i),
            token: TokenModel::Literal(segs[i]),
        }
    }
}

/// The first level from `i` on that has a fault.
pub open spec fn fault_level(segs: Seq<Seq<char>>, i: int) -> int
    decreases segs.len() - i,
{
    if i >= segs.len() || level_fault(segs, i) is Some {
        i
    } else {
        fault_level(segs, i + 1)
    }
}

/// The tokens of a filter, or why it has none.
pub open spec fn tokenize_filter(s: Seq<char>) -> Result<Seq<TokenModel>, PatternErrorModel> {
    let segs = text::levels(s);
    if s.len() == 0 {
        Err(PatternErrorModel::UnexpectedToken { at: 0, token: TokenModel::Literal(seq![]) })
    } else if encode_utf8(s).len() > MAX_TOPIC_LEN {
        Err(
            PatternErrorModel::UnexpectedToken {
                at: encode_utf8(s).len(),
                token: TokenModel::Literal(seq![]),
            },
        )
    } else if first_fault(segs, 0) is Some {
        Err(fault_error(segs, fault_level(segs, 0)))
    } else {
        Ok(path_tokens(filter_patterns(s)))
    }
}

/// Whether the levels of a filter cover the levels of a topic, level by level.
pub open spec fn levels_match(filter: Seq<Seq<char>>, topic: Seq<Seq<char>>) -> bool
    decreases filter.len(),
{
    if filter.len() == 0 {
        topic.len() == 0
    } else if filter[0] == hash() {
        true
    } else if topic.len() == 0 {
        false
    } else {
        &&& filter[0] == plus() || filter[0] == topic[0]
        &&& levels_match(filter.drop_first(), topic.drop_first())
    }
}

/// Whether a filter matches a topic: level by level, except that a wildcard in
/// the first level does not match a topic that starts with `$`.
pub open spec fn filter_covers(filter: Seq<Seq<char>>, topic: Seq<Seq<char>>) -> bool {
    if filter.len() > 0 && (filter[0] == plus() || filter[0] == hash()) && topic.len() > 0
        && is_dollar(topic[0]) {
        false
    } else {
        levels_match(filter, topic)
    }
}

/// Whether a filter matches a topic name.
pub open spec fn matches(filter: Seq<char>, topic: Seq<char>) -> bool {
    filter_covers(text::levels(filter), text::levels(topic))
}

// ----------------------------------------------------------------------------
// Executable functions
// ----------------------------------------------------------------------------

/// Whether the text is the single character `x`.
fn is_char(s: &str, x: u8) -> (r: bool)
    requires
        x <= 0x7F,
    ensures
        r == (s@ == seq![text::ascii(x)]),
{
    let b = s.as_bytes();
    proof {
        text::lemma_encode_len(s@);
        text::lemma_encode_around(seq![text::ascii(x)], text::ascii(x), 0);
        let one = seq![text::ascii(x)];
        assert(one.subrange(0, 0) =~= Seq::<char>::empty());
        assert(one.subrange(1, 1) =~= Seq::<char>::empty());
        assert(encode_utf8(Seq::<char>::empty()) =~= Seq::<u8>::empty());
        assert((x as char) as u8 == x);
        assert(encode_utf8(one) =~= seq![x]);
        if encode_utf8(s@) == seq![x] {
            text::lemma_encode_injective(s@, one);
        }
        if b@.len() == 1 && b@[0] == x {
            assert(b@ =~= seq![x]);
        }
    }
    b.len() == 1 && b[0] == x
}

/// The fault of one level of a filter.
fn find_fault(seg: &str, last: bool, Ghost(segs): Ghost<Seq<Seq<char>>>, Ghost(i): Ghost<int>) -> (r:
    Option<Violation>)
    requires
        0 <= i < segs.len(),
        segs[i] == seg@,
        last == (i == segs.len() - 1),
    ensures
        r == level_fault(segs, i),
{
    if is_char(seg, PLUS) {
        None
    } else if is_char(seg, HASH) {
        if !last {
            Some(Violation::HashWildcardNotTerminal)
        } else {
            None
        }
    } else if contains_ascii(seg, PLUS) || contains_ascii(seg, HASH) {
        Some(Violation::WildcardMixedWithLiteral)
    } else {
        None
    }
}

/// Parses a topic filter into the patterns of its levels.
pub fn parse_subscribe_filter(filter: &str) -> (r: Result<Vec<PathPattern>, MqttError>)
    ensures
        match check_filter(filter@) {
            Ok(_) => r is Ok && patterns_of(r->Ok_0@) == filter_patterns(filter@),
            Err(e) => r is Err && r->Err_0 == e,
        },
{
    if filter.is_empty() {
        return Err(MqttError::Protocol(Violation::EmptyTopic));
    }
    if filter.as_bytes().len() > MAX_TOPIC_LEN {
        return Err(MqttError::Protocol(Violation::TopicTooLong));
    }
    let segments: Vec<&str> = split_ascii(filter, SLASH);
    let ghost segs = text::levels(filter@);
    let mut patterns: Vec<PathPattern> = Vec::new();
    let mut i: usize = 0;
    while i < segments.len()
        invariant
            i <= segments@.len(),
            segs == text::levels(filter@),
            text::all_chars(segments@) == segs,
            first_fault(segs, 0) == first_fault(segs, i as int),
            patterns@.len() == i,
            forall|k: int| 0 <= k < i ==> (#[trigger] patterns@[k])@ == level_pattern(segs[k]),
            check_filter(filter@) == (match first_fault(segs, 0) {
                Some(v) => Err(MqttError::Protocol(v)),
                None => Ok(()),
            }),
        decreases segments@.len() - i,
    {
        let seg: &str = segments[i];
        assert(segs[i as int] == seg@);
        match find_fault(seg, i == segments.len() - 1, Ghost(segs), Ghost(i as int)) {
            Some(v) => {
                return Err(MqttError::Protocol(v));
            },
            None => {},
        }
        if is_char(seg, PLUS) {
            patterns.push(PathPattern::Any);
        } else if is_char(seg, HASH) {
            patterns.push(PathPattern::AnyPath);
        } else {
            patterns.push(PathPattern::Literal(seg.to_owned()));
        }
        i += 1;
    }
    assert(patterns_of(patterns@) =~= filter_patterns(filter@));
    Ok(patterns)
}

/// Parses a topic name into literal levels.
pub fn parse_publish_topic(topic: &str) -> (r: Result<Vec<PathPattern>, MqttError>)
    ensures
        match check_topic(topic@) {
            Ok(_) => r is Ok && patterns_of(r->Ok_0@) == topic_patterns(topic@),
            Err(e) => r is Err && r->Err_0 == e,
        },
{
    match validate_publish_topic(topic) {
        Err(e) => {
            return Err(e);
        },
        Ok(_) => {},
    }
    let segments: Vec<&str> = split_ascii(topic, SLASH);
    let mut patterns: Vec<PathPattern> = Vec::new();
    let mut i: usize = 0;
    while i < segments.len()
        invariant
            i <= segments@.len(),
            patterns@.len() == i,
            forall|k: int|
                0 <= k < i ==> (#[trigger] patterns@[k])@ == PatternModel::Literal(segments@[k]@),
        decreases segments@.len() - i,
    {
        patterns.push(PathPattern::Literal(segments[i].to_owned()));
        i += 1;
    }
    proof {
        let segs = text::levels(topic@);
        assert(text::all_chars(segments@) == segs);
        assert forall|k: int| 0 <= k < segs.len() implies segs[k] == segments@[k]@ by {
            assert(text::all_chars(segments@)[k] == segments@[k]@);
        }
        assert(patterns_of(patterns@) =~= topic_patterns(topic@));
    }
    Ok(patterns)
}

/// The topic filter that stands for a path.
pub fn path_to_wire_filter(path: &[PathPattern]) -> (r: String)
    ensures
        r@ == wire_filter(patterns_of(path@)),
{
    let ghost parts = Seq::new(path@.len(), |i: int| pattern_text(path@[i]@));
    let mut out: String = String::new();
    let mut i: usize = path.len();
    let mut first: bool = true;
    proof {
        reveal_strlit("+");
        reveal_strlit("#");
        reveal_strlit("/");
        reveal_strlit("");
        assert("+"@ =~= plus());
        assert("#"@ =~= hash());
        assert("/"@ =~= seq!['/']);
    }
    // Join from the last level to the first.
    while i > 0
        invariant
            i <= path@.len(),
            parts == Seq::new(path@.len(), |i: int| pattern_text(path@[i]@)),
            first == (i == path@.len()),
            out@ == text::join_chars(parts.subrange(i as int, parts.len() as int), '/'),
            "+"@ == plus(),
            "#"@ == hash(),
            "/"@ == seq!['/'],
        decreases i,
    {
        let ghost tail = parts.subrange(i as int, parts.len() as int);
        i -= 1;
        let mut piece: String = match &path[i] {
            PathPattern::Literal(s) => s.clone(),
            PathPattern::Any => "+".to_owned(),
            PathPattern::Regex(_) => "+".to_owned(),
            PathPattern::AnyPath => "#".to_owned(),
        };
        assert(piece@ == parts[i as int]);
        let ghost whole = parts.subrange(i as int, parts.len() as int);
        assert(whole.drop_first() =~= tail);
        if first {
            first = false;
            assert(whole =~= seq![parts[i as int]]);
        } else {
            piece.append("/");
            piece.append(out.as_str());
            assert(piece@ =~= parts[i as int] + seq!['/'] + out@);
        }
        out = piece;
    }
    proof {
        assert(parts.subrange(0, parts.len() as int) =~= parts);
        let path_model = patterns_of(path@);
        assert(parts =~= Seq::new(path_model.len(), |i: int| pattern_text(path_model[i])));
    }
    out
}

/// Checks a topic filter without building its patterns.
pub fn validate_subscribe_filter(filter: &str) -> (r: Result<(), MqttError>)
    ensures
        r == check_filter(filter@),
{
    if filter.is_empty() {
        return Err(MqttError::Protocol(Violation::EmptyTopic));
    }
    if filter.as_bytes().len() > MAX_TOPIC_LEN {
        return Err(MqttError::Protocol(Violation::TopicTooLong));
    }
    let segments: Vec<&str> = split_ascii(filter, SLASH);
    let ghost segs = text::levels(filter@);
    let mut i: usize = 0;
    while i < segments.len()
        invariant
            i <= segments@.len(),
            text::all_chars(segments@) == segs,
            first_fault(segs, 0) == first_fault(segs, i as int),
            check_filter(filter@) == (match first_fault(segs, 0) {
                Some(v) => Err(MqttError::Protocol(v)),
                None => Ok(()),
            }),
        decreases segments@.len() - i,
    {
        let seg: &str = segments[i];
        assert(segs[i as int] == seg@);
        match find_fault(seg, i == segments.len() - 1, Ghost(segs), Ghost(i as int)) {
            Some(v) => {
                return Err(MqttError::Protocol(v));
            },
            None => {},
        }
        i += 1;
    }
    Ok(())
}

/// Checks a topic name without building its levels.
pub fn validate_publish_topic(topic: &str) -> (r: Result<(), MqttError>)
    ensures
        r == check_topic(topic@),
{
    if topic.is_empty() {
        return Err(MqttError::Protocol(Violation::EmptyTopic));
    }
    if topic.as_bytes().len() > MAX_TOPIC_LEN {
        return Err(MqttError::Protocol(Violation::TopicTooLong));
    }
    if contains_ascii(topic, PLUS) || contains_ascii(topic, HASH) {
        return Err(MqttError::Protocol(Violation::WildcardInPublishTopic));
    }
    Ok(())
}

/// The offsets of the levels add up to the length of the text and one more.
proof fn lemma_offsets(s: Seq<char>)
    ensures
        level_offset(text::levels(s), text::levels(s).len() as int) == encode_utf8(s).len() + 1,
    decreases s.len(),
{
    let c = '/';
    text::lemma_first_index(s, c);
    let i = text::first_index(s, c);
    let segs = text::levels(s);
    if i < s.len() {
        let rest = s.subrange(i + 1, s.len() as int);
        lemma_offsets(rest);
        text::lemma_encode_around(s, c, i);
        assert(segs[0] == s.subrange(0, i));
        assert(segs.drop_first() =~= text::levels(rest));
        lemma_offset_shift(segs, segs.len() as int);
    } else {
        assert(segs =~= seq![s]);
        reveal_with_fuel(level_offset, 2);
    }
}

/// The offset of a level counted from the second one.
proof fn lemma_offset_shift(segs: Seq<Seq<char>>, n: int)
    requires
        1 <= n <= segs.len(),
    ensures
        level_offset(segs, n) == encode_utf8(segs[0]).len() + 1 + level_offset(
            segs.drop_first(),
            n - 1,
        ),
    decreases n,
{
    reveal_with_fuel(level_offset, 2);
    if n > 1 {
        lemma_offset_shift(segs, n - 1);
        assert(segs.drop_first()[n - 2] == segs[n - 1]);
    }
}

proof fn lemma_offset_grows(segs: Seq<Seq<char>>, i: int, n: int)
    requires
        0 <= i <= n,
    ensures
        level_offset(segs, i) <= level_offset(segs, n),
    decreases n - i,
{
    if i < n {
        lemma_offset_grows(segs, i, n - 1);
    }
}

/// The tokens of a topic filter, from which the router builds the same patterns
/// that [`parse_subscribe_filter`] gives.
pub fn tokenize_mqtt_filter(input: &str) -> (r: Result<Vec<RawToken>, PatternError>)
    ensures
        match tokenize_filter(input@) {
            Ok(t) => r is Ok && tokens_of(r->Ok_0@) == t,
            Err(e) => r is Err && r->Err_0@ == e,
        },
{
    if input.is_empty() {
        return Err(PatternError::UnexpectedToken { at: 0, token: RawToken::Literal(String::new()) });
    }
    let len: usize = input.as_bytes().len();
    if len > MAX_TOPIC_LEN {
        return Err(
            PatternError::UnexpectedToken { at: len, token: RawToken::Literal(String::new()) },
        );
    }
    let segments: Vec<&str> = split_ascii(input, SLASH);
    let ghost segs = text::levels(input@);
    let ghost pats = filter_patterns(input@);
    let mut tokens: Vec<RawToken> = Vec::new();
    let mut byte_off: usize = 0;
    let mut i: usize = 0;
    proof {
        lemma_offsets(input@);
        reveal_strlit("_");
        assert("_"@ =~= seq!['_']);
        assert(pats.subrange(0, 0) =~= Seq::<PatternModel>::empty());
        assert(tokens_of(tokens@) =~= Seq::<TokenModel>::empty());
    }
    while i < segments.len()
        invariant
            i <= segments@.len(),
            segs == text::levels(input@),
            pats == filter_patterns(input@),
            text::all_chars(segments@) == segs,
            "_"@ == seq!['_'],
            level_offset(segs, segs.len() as int) <= MAX_TOPIC_LEN + 1,
            byte_off == level_offset(segs, i as int),
            first_fault(segs, 0) == first_fault(segs, i as int),
            fault_level(segs, 0) == fault_level(segs, i as int),
            tokens_of(tokens@) == path_tokens(pats.subrange(0, i as int)),
            tokenize_filter(input@) == (if first_fault(segs, 0) is Some {
                Err(fault_error(segs, fault_level(segs, 0)))
            } else {
                Ok(path_tokens(pats))
            }),
        decreases segments@.len() - i,
    {
        let seg: &str = segments[i];
        assert(segs[i as int] == seg@);
        match find_fault(seg, i == segments.len() - 1, Ghost(segs), Ghost(i as int)) {
            Some(_) => {
                if is_char(seg, HASH) {
                    return Err(PatternError::AnyPathMixedWithOtherContent { at: byte_off });
                }
                return Err(
                    PatternError::UnexpectedToken {
                        at: byte_off,
                        token: RawToken::Literal(seg.to_owned()),
                    },
                );
            },
            None => {},
        }
        let ghost before = tokens_of(tokens@);
        if i > 0 {
            tokens.push(RawToken::Slash);
        }
        let ghost mid = tokens_of(tokens@);
        if is_char(seg, PLUS) {
            tokens.push(RawToken::AngleStart);
            tokens.push(RawToken::Ident("_".to_owned()));
            tokens.push(RawToken::AngleClose);
        } else if is_char(seg, HASH) {
            tokens.push(RawToken::AngleStart);
            tokens.push(RawToken::Type(TypeKind::Path));
            tokens.push(RawToken::AngleClose);
        } else {
            tokens.push(RawToken::Literal(seg.to_owned()));
        }
        proof {
            let p = pats.subrange(0, i + 1);
            assert(p.drop_last() =~= pats.subrange(0, i as int));
            assert(p.last() == level_pattern(seg@));
            assert(tokens_of(tokens@) =~= mid + pattern_tokens(p.last()));
            if i > 0 {
                assert(mid =~= before + seq![TokenModel::Slash]);
            } else {
                assert(before =~= Seq::<TokenModel>::empty());
                assert(mid =~= Seq::<TokenModel>::empty());
            }
            assert(tokens_of(tokens@) =~= path_tokens(p));
            lemma_offset_grows(segs, i + 1, segs.len() as int);
        }
        byte_off = byte_off + seg.as_bytes().len() + 1;
        i += 1;
    }
    assert(pats.subrange(0, pats.len() as int) =~= pats);
    Ok(tokens)
}

/// The levels of a topic name; none for the empty text.
pub fn split_mqtt_topic<'a>(input: &'a str) -> (r: Vec<&'a str>)
    ensures
        input@.len() == 0 ==> r@.len() == 0,
        input@.len() > 0 ==> text::all_chars(r@) == text::levels(input@),
{
    if input.is_empty() {
        Vec::new()
    } else {
        split_ascii(input, SLASH)
    }
}

/// Whether the first level of a topic starts with `$`. A wildcard in the first
/// level of a filter does not match such a topic.
pub fn is_dollar_prefixed_first_segment(topic: &str) -> (r: bool)
    ensures
        r == is_dollar(topic@),
{
    starts_with_ascii(topic, DOLLAR)
}

/// Whether a filter matches a topic that is given by its levels.
pub fn filter_matches(filter: &str, topic_segs: &[&str]) -> (r: bool)
    ensures
        r == filter_covers(text::levels(filter@), text::all_chars(topic_segs@)),
{
    let filter_segs: Vec<&str> = split_ascii(filter, SLASH);
    let ghost fs = text::levels(filter@);
    let ghost ts = text::all_chars(topic_segs@);
    assert(fs[0] == filter_segs@[0]@) by {
        assert(text::all_chars(filter_segs@)[0] == filter_segs@[0]@);
    }
    if (is_char(filter_segs[0], PLUS) || is_char(filter_segs[0], HASH)) && topic_segs.len() > 0
        && starts_with_ascii(topic_segs[0], DOLLAR) {
        return false;
    }
    let mut k: usize = 0;
    proof {
        assert(fs.subrange(0, fs.len() as int) =~= fs);
        assert(ts.subrange(0, ts.len() as int) =~= ts);
    }
    while k < filter_segs.len()
        invariant
            k <= filter_segs@.len(),
            k <= topic_segs@.len(),
            fs == text::levels(filter@),
            fs == text::all_chars(filter_segs@),
            ts == text::all_chars(topic_segs@),
            filter_covers(fs, ts) == levels_match(
                fs.subrange(k as int, fs.len() as int),
                ts.subrange(k as int, ts.len() as int),
            ),
        decreases filter_segs@.len() - k,
    {
        let seg: &str = filter_segs[k];
        let ghost f = fs.subrange(k as int, fs.len() as int);
        let ghost t = ts.subrange(k as int, ts.len() as int);
        assert(f[0] == seg@);
        if is_char(seg, HASH) {
            return true;
        }
        if k >= topic_segs.len() {
            return false;
        }
        assert(t[0] == topic_segs@[k as int]@);
        if !is_char(seg, PLUS) && !str_eq(seg, topic_segs[k]) {
            return false;
        }
        proof {
            assert(f.drop_first() =~= fs.subrange(k + 1, fs.len() as int));
            assert(t.drop_first() =~= ts.subrange(k + 1, ts.len() as int));
        }
        k += 1;
    }
    k == topic_segs.len()
}

/// Whether a filter matches a topic name.
pub fn matches_topic(filter: &str, topic: &str) -> (r: bool)
    ensures
        r == matches(filter@, topic@),
{
    let segs: Vec<&str> = split_ascii(topic, SLASH);
    filter_matches(filter, segs.as_slice())
}

// ----------------------------------------------------------------------------
// Laws
// ----------------------------------------------------------------------------

/// A filter that parses is written back as it was.
pub proof fn law_filter_round_trip(s: Seq<char>)
    requires
        check_filter(s) is Ok,
    ensures
        wire_filter(filter_patterns(s)) == s,
{
    let segs = text::levels(s);
    let path = filter_patterns(s);
    let parts = Seq::new(path.len(), |i: int| pattern_text(path[i]));
    assert(parts =~= segs);
    text::lemma_join_split(s, '/');
}

/// A topic name that parses is written back as it was.
pub proof fn law_topic_round_trip(s: Seq<char>)
    requires
        check_topic(s) is Ok,
    ensures
        wire_filter(topic_patterns(s)) == s,
{
    let segs = text::levels(s);
    let path = topic_patterns(s);
    let parts = Seq::new(path.len(), |i: int| pattern_text(path[i]));
    assert(parts =~= segs);
    text::lemma_join_split(s, '/');
}

/// The tokenizer accepts exactly the filters that the parser accepts, and its
/// tokens are those of the parser's patterns.
pub proof fn law_tokens_follow_patterns(s: Seq<char>)
    ensures
        tokenize_filter(s) is Ok <==> check_filter(s) is Ok,
        tokenize_filter(s) matches Ok(t) ==> t == path_tokens(filter_patterns(s)),
{
}

proof fn lemma_levels_match_themselves(levels: Seq<Seq<char>>)
    ensures
        levels_match(levels, levels),
    decreases levels.len(),
{
    if levels.len() > 0 {
        lemma_levels_match_themselves(levels.drop_first());
    }
}

/// As a filter, every text matches itself as a topic name.
pub proof fn lemma_matches_itself(s: Seq<char>)
    ensures
        matches(s, s),
{
    lemma_levels_match_themselves(text::levels(s));
}

/// Every acceptable topic name is an acceptable filter that matches itself.
pub proof fn law_topic_matches_itself(s: Seq<char>)
    requires
        check_topic(s) is Ok,
    ensures
        check_filter(s) is Ok,
        matches(s, s),
{
    let segs = text::levels(s);
    text::lemma_split_pieces(s, '/');
    lemma_pieces_within(s, '/');
    assert forall|i: int| 0 <= i < segs.len() implies !has_wildcard(#[trigger] segs[i]) && segs[i]
        != plus() && segs[i] != hash() by {
        if segs[i].contains('+') {
            assert(s.contains('+'));
        }
        if segs[i].contains('#') {
            assert(s.contains('#'));
        }
        if segs[i] == plus() {
            assert(segs[i][0] == '+');
        }
        if segs[i] == hash() {
            assert(segs[i][0] == '#');
        }
    }
    lemma_no_fault(segs, 0);
    lemma_literal_levels(segs, segs);
}

proof fn lemma_no_fault(segs: Seq<Seq<char>>, i: int)
    requires
        0 <= i,
        forall|k: int| 0 <= k < segs.len() ==> !has_wildcard(#[trigger] segs[k]) && segs[k] != hash(),
    ensures
        first_fault(segs, i) is None,
    decreases segs.len() - i,
{
    if i < segs.len() {
        assert(!has_wildcard(segs[i]));
        lemma_no_fault(segs, i + 1);
    }
}

/// Every character of a piece is one of the text.
proof fn lemma_pieces_within(s: Seq<char>, c: char)
    ensures
        forall|k: int, x: char|
            0 <= k < text::split_chars(s, c).len() && (#[trigger] text::split_chars(
                s,
                c,
            )[k]).contains(x) ==> #[trigger] s.contains(x),
    decreases s.len(),
{
    text::lemma_first_index(s, c);
    let i = text::first_index(s, c);
    let whole = text::split_chars(s, c);
    if i < s.len() {
        let rest = s.subrange(i + 1, s.len() as int);
        lemma_pieces_within(rest, c);
        assert forall|k: int, x: char|
            0 <= k < whole.len() && (#[trigger] whole[k]).contains(x) implies #[trigger] s.contains(
            x,
        ) by {
            if k == 0 {
                let j = choose|j: int| 0 <= j < whole[0].len() && whole[0][j] == x;
                assert(s[j] == x);
            } else {
                assert(whole[k] == text::split_chars(rest, c)[k - 1]);
                assert(rest.contains(x));
                let j = choose|j: int| 0 <= j < rest.len() && rest[j] == x;
                assert(s[i + 1 + j] == x);
            }
        }
    } else {
        assert(whole[0] == s);
    }
}

proof fn lemma_literal_levels(filter: Seq<Seq<char>>, topic: Seq<Seq<char>>)
    requires
        forall|k: int|
            0 <= k < filter.len() ==> #[trigger] filter[k] != plus() && filter[k] != hash(),
    ensures
        levels_match(filter, topic) <==> filter == topic,
    decreases filter.len(),
{
    if filter.len() == 0 {
        assert(topic.len() == 0 ==> filter =~= topic);
    } else {
        assert(filter[0] != plus());
        if topic.len() > 0 {
            let f = filter.drop_first();
            let t = topic.drop_first();
            assert forall|k: int| 0 <= k < f.len() implies #[trigger] f[k] != plus() && f[k]
                != hash() by {
                assert(f[k] == filter[k + 1]);
            }
            lemma_literal_levels(f, t);
            if filter[0] == topic[0] && f == t {
                assert(filter =~= seq![filter[0]] + f);
                assert(topic =~= seq![topic[0]] + t);
            }
        }
    }
}

/// A filter without wildcards matches the topic of the same name and no other.
pub proof fn law_literal_filter(filter: Seq<char>, topic: Seq<char>)
    requires
        !has_wildcard(filter),
    ensures
        matches(filter, topic) <==> filter == topic,
{
    let segs = text::levels(filter);
    lemma_pieces_within(filter, '/');
    assert forall|k: int| 0 <= k < segs.len() implies #[trigger] segs[k] != plus() && segs[k]
        != hash() by {
        if segs[k] == plus() {
            assert(segs[k][0] == '+');
            assert(segs[k].contains('+'));
        }
        if segs[k] == hash() {
            assert(segs[k][0] == '#');
            assert(segs[k].contains('#'));
        }
    }
    text::lemma_split_pieces(filter, '/');
    assert(segs[0] != plus());
    lemma_literal_levels(segs, text::levels(topic));
    text::lemma_join_split(filter, '/');
    text::lemma_join_split(topic, '/');
}

/// A filter whose first level is a wildcard matches no topic that starts with
/// `$`.
pub proof fn law_dollar_guard(filter: Seq<char>, topic: Seq<char>)
    requires
        text::levels(filter)[0] == plus() || text::levels(filter)[0] == hash(),
        is_dollar(topic),
    ensures
        !matches(filter, topic),
{
    text::lemma_split_pieces(filter, '/');
    text::lemma_split_pieces(topic, '/');
    text::lemma_first_index(topic, '/');
    let i = text::first_index(topic, '/');
    assert(i > 0);
    if i < topic.len() {
        assert(text::levels(topic)[0] == topic.subrange(0, i));
    } else {
        assert(text::levels(topic)[0] == topic);
    }
    assert(text::levels(topic)[0][0] == topic[0]);
}

/// `#` alone matches every topic that does not start with `$`.
pub proof fn law_hash_matches_all(topic: Seq<char>)
    requires
        !is_dollar(topic),
    ensures
        matches(hash(), topic),
{
    text::lemma_first_index(hash(), '/');
    let i = text::first_index(hash(), '/');
    if i < hash().len() {
        assert(hash()[i] == '/');
        assert(i == 0);
    }
    assert(text::levels(hash()) =~= seq![hash()]);
    text::lemma_split_pieces(topic, '/');
    text::lemma_first_index(topic, '/');
    let j = text::first_index(topic, '/');
    let t0 = text::levels(topic)[0];
    if j < topic.len() {
        assert(t0 == topic.subrange(0, j));
    } else {
        assert(t0 == topic);
    }
    if t0.len() > 0 {
        assert(t0[0] == topic[0]);
    }
}

/// How the levels before the first `#` decide, level by level.
proof fn lemma_levels_by_place(f: Seq<Seq<char>>, t: Seq<Seq<char>>, k: int)
    requires
        0 <= k <= f.len(),
        forall|i: int| 0 <= i < k ==> #[trigger] f[i] != seq!['#'],
        k < f.len() ==> f[k] == seq!['#'],
    ensures
        levels_match(f, t) <==> {
            &&& t.len() >= k
            &&& k == f.len() ==> t.len() == k
            &&& forall|i: int| 0 <= i < k ==> #[trigger] f[i] == seq!['+'] || f[i] == t[i]
        },
    decreases f.len(),
{
    if k > 0 {
        assert(f[0] != seq!['#']);
        if t.len() > 0 {
            let g = f.drop_first();
            let u = t.drop_first();
            assert forall|i: int| 0 <= i < k - 1 implies #[trigger] g[i] != seq!['#'] by {
                assert(g[i] == f[i + 1]);
            }
            lemma_levels_by_place(g, u, k - 1);
            if levels_match(f, t) {
                assert forall|i: int| 0 <= i < k implies #[trigger] f[i] == seq!['+'] || f[i]
                    == t[i] by {
                    if i > 0 {
                        assert(g[i - 1] == f[i] && u[i - 1] == t[i]);
                    }
                }
            }
            if t.len() >= k && (k == f.len() ==> t.len() == k) && (forall|i: int|
                0 <= i < k ==> #[trigger] f[i] == seq!['+'] || f[i] == t[i]) {
                assert forall|i: int| 0 <= i < k - 1 implies #[trigger] g[i] == seq!['+'] || g[i]
                    == u[i] by {
                    assert(g[i] == f[i + 1] && u[i] == t[i + 1]);
                }
                assert(f[0] == seq!['+'] || f[0] == t[0]);
            }
        }
    }
}

/// The first level of a text starts with `$` exactly where the text does.
proof fn lemma_first_level_dollar(s: Seq<char>)
    ensures
        text::levels(s).len() > 0,
        is_dollar(text::levels(s)[0]) <==> s.len() > 0 && s[0] == '$',
{
    text::lemma_split_pieces(s, '/');
    text::lemma_first_index(s, '/');
    let i = text::first_index(s, '/');
    if i < s.len() {
        assert(text::levels(s)[0] == s.subrange(0, i));
        if i == 0 {
            assert(s[0] == '/');
        }
    } else {
        assert(text::levels(s)[0] == s);
    }
}

/// What a filter matches, place by place. Let `k` levels of the filter stand
/// before its first `#`, all of them where it has none. A topic is matched exactly
/// where each of those levels is `+` or is the topic's level at the same place, the
/// topic has at least `k` levels, and no more than `k` unless a `#` follows. A
/// wildcard as the filter's first level rules out topics that start with `$`.
pub proof fn law_matches_by_place(filter: Seq<char>, topic: Seq<char>, k: int)
    requires
        0 <= k <= text::levels(filter).len(),
        forall|i: int| 0 <= i < k ==> #[trigger] text::levels(filter)[i] != seq!['#'],
        k < text::levels(filter).len() ==> text::levels(filter)[k] == seq!['#'],
    ensures
        matches(filter, topic) <==> {
            let f = text::levels(filter);
            let t = text::levels(topic);
            &&& !((f[0] == seq!['+'] || f[0] == seq!['#']) && topic.len() > 0 && topic[0] == '$')
            &&& t.len() >= k
            &&& k == f.len() ==> t.len() == k
            &&& forall|i: int| 0 <= i < k ==> #[trigger] f[i] == seq!['+'] || f[i] == t[i]
        },
{
    lemma_first_level_dollar(filter);
    lemma_first_level_dollar(topic);
    lemma_levels_by_place(text::levels(filter), text::levels(topic), k);
}

/// What an acceptable filter matches. Without `#`, the topics with as many levels
/// of which each is the filter's level at its place or stands under a `+`. With `#`
/// as its last level, the topics with at least the levels before the `#`, each
/// likewise. Topics that start with `$` are matched only where the filter's first
/// level is no wildcard.
pub proof fn law_accepted_filter_matches(filter: Seq<char>, topic: Seq<char>)
    requires
        check_filter(filter) is Ok,
        topic.len() > 0 && topic[0] == '$' ==> text::levels(filter)[0] != seq!['+']
            && text::levels(filter)[0] != seq!['#'],
    ensures
        text::levels(filter).last() != seq!['#'] ==> (matches(filter, topic) <==> {
            let f = text::levels(filter);
            let t = text::levels(topic);
            &&& t.len() == f.len()
            &&& forall|i: int|
                0 <= i < f.len() ==> #[trigger] f[i] == seq!['+'] || f[i] == t[i]
        }),
        text::levels(filter).last() == seq!['#'] ==> (matches(filter, topic) <==> {
            let f = text::levels(filter);
            let t = text::levels(topic);
            &&& t.len() >= f.len() - 1
            &&& forall|i: int|
                0 <= i < f.len() - 1 ==> #[trigger] f[i] == seq!['+'] || f[i] == t[i]
        }),
{
    let f = text::levels(filter);
    lemma_first_level_dollar(filter);
    lemma_first_fault(f, 0);
    assert forall|i: int| 0 <= i < f.len() - 1 implies #[trigger] f[i] != seq!['#'] by {
        assert(sound_level(f, i));
        if f[i] == seq!['#'] {
            assert(f[i][0] == '#');
            assert(f[i].contains('#'));
        }
    }
    if f.last() == seq!['#'] {
        law_matches_by_place(filter, topic, f.len() - 1);
    } else {
        law_matches_by_place(filter, topic, f.len() as int);
    }
}

/// Whether a level may stand in a filter: a wildcard alone, with `#` only at the
/// end, or a text without wildcard characters.
pub open spec fn sound_level(f: Seq<Seq<char>>, i: int) -> bool {
    ||| f[i] == seq!['+']
    ||| f[i] == seq!['#'] && i == f.len() - 1
    ||| !f[i].contains('+') && !f[i].contains('#')
}

proof fn lemma_first_fault(f: Seq<Seq<char>>, from: int)
    requires
        0 <= from,
    ensures
        first_fault(f, from) is None <==> forall|i: int|
            from <= i < f.len() ==> #[trigger] sound_level(f, i),
        first_fault(f, from) matches Some(v) ==> {
            let k = fault_level(f, from);
            &&& from <= k < f.len()
            &&& !sound_level(f, k)
            &&& forall|i: int| from <= i < k ==> #[trigger] sound_level(f, i)
            &&& v == if f[k] == seq!['#'] {
                Violation::HashWildcardNotTerminal
            } else {
                Violation::WildcardMixedWithLiteral
            }
        },
    decreases f.len() - from,
{
    if from < f.len() {
        lemma_first_fault(f, from + 1);
        if f[from] == seq!['#'] {
            assert(f[from][0] == '#');
            assert(f[from].contains('#'));
        }
        if level_fault(f, from) is Some {
            assert(!sound_level(f, from));
        } else {
            assert(sound_level(f, from));
        }
    }
}

/// Which filters are acceptable, and what the others are refused for: an empty
/// one, one of more than 65535 bytes, and one with a level that mixes a wildcard
/// with other text or is a `#` before the end. The first such level gives the
/// reason.
pub proof fn law_filter_accepted(s: Seq<char>)
    ensures
        check_filter(s) is Ok <==> {
            &&& 0 < s.len()
            &&& encode_utf8(s).len() <= 65535
            &&& forall|i: int|
                0 <= i < text::levels(s).len() ==> #[trigger] sound_level(text::levels(s), i)
        },
        s.len() == 0 ==> check_filter(s) == Err::<(), MqttError>(
            MqttError::Protocol(Violation::EmptyTopic),
        ),
        encode_utf8(s).len() > 65535 ==> check_filter(s) == Err::<(), MqttError>(
            MqttError::Protocol(Violation::TopicTooLong),
        ),
        forall|k: int|
            0 < s.len() && encode_utf8(s).len() <= 65535 && 0 <= k < text::levels(s).len()
                && !(#[trigger] sound_level(text::levels(s), k)) && (forall|i: int|
                0 <= i < k ==> #[trigger] sound_level(text::levels(s), i)) ==> check_filter(s)
                == Err::<(), MqttError>(
                MqttError::Protocol(
                    if text::levels(s)[k] == seq!['#'] {
                        Violation::HashWildcardNotTerminal
                    } else {
                        Violation::WildcardMixedWithLiteral
                    },
                ),
            ),
{
    let f = text::levels(s);
    lemma_first_fault(f, 0);
    if s.len() == 0 {
        text::lemma_encode_len(s);
    }
    assert forall|k: int|
        0 < s.len() && encode_utf8(s).len() <= 65535 && 0 <= k < f.len() && !(
        #[trigger] sound_level(f, k)) && (forall|i: int|
            0 <= i < k ==> #[trigger] sound_level(f, i)) implies check_filter(s) == Err::<
        (),
        MqttError,
    >(
        MqttError::Protocol(
            if f[k] == seq!['#'] {
                Violation::HashWildcardNotTerminal
            } else {
                Violation::WildcardMixedWithLiteral
            },
        ),
    ) by {
        let first = fault_level(f, 0);
        if first < k {
            assert(sound_level(f, first));
        }
        if k < first {
            assert(sound_level(f, k));
        }
    }
}

/// Which topic names are acceptable: those of one to 65535 bytes without a
/// wildcard character.
pub proof fn law_topic_accepted(s: Seq<char>)
    ensures
        check_topic(s) is Ok <==> {
            &&& 0 < s.len()
            &&& encode_utf8(s).len() <= 65535
            &&& forall|i: int| 0 <= i < s.len() ==> #[trigger] s[i] != '+' && s[i] != '#'
        },
        s.len() == 0 ==> check_topic(s) == Err::<(), MqttError>(
            MqttError::Protocol(Violation::EmptyTopic),
        ),
        encode_utf8(s).len() > 65535 ==> check_topic(s) == Err::<(), MqttError>(
            MqttError::Protocol(Violation::TopicTooLong),
        ),
        0 < s.len() && encode_utf8(s).len() <= 65535 && (s.contains('+') || s.contains('#'))
            ==> check_topic(s) == Err::<(), MqttError>(
            MqttError::Protocol(Violation::WildcardInPublishTopic),
        ),
{
    if s.len() == 0 {
        text::lemma_encode_len(s);
    }
    if has_wildcard(s) {
        let c: char = if s.contains('+') {
            '+'
        } else {
            '#'
        };
        let j = choose|j: int| 0 <= j < s.len() && s[j] == c;
        assert(s[j] == c);
    }
}

/// Whether a filter whose first `#` stands behind `k` levels, or which has `k` levels
/// and no `#`, covers a topic place by place.
pub open spec fn covers_by_place(filter: Seq<char>, topic: Seq<char>, k: int) -> bool {
    let f = text::levels(filter);
    let t = text::levels(topic);
    &&& 0 <= k <= f.len()
    &&& k < f.len() ==> f[k] == seq!['#']
    &&& k == f.len() ==> t.len() == k
    &&& t.len() >= k
    &&& forall|i: int|
        0 <= i < k ==> #[trigger] f[i] != seq!['#'] && (f[i] == seq!['+'] || f[i] == t[i])
    &&& topic.len() > 0 && topic[0] == '$' ==> f[0] != seq!['+'] && f[0] != seq!['#']
}

/// How many levels stand before the first `#`.
proof fn lemma_before_hash(f: Seq<Seq<char>>, from: int) -> (k: int)
    requires
        0 <= from <= f.len(),
        forall|i: int| 0 <= i < from ==> #[trigger] f[i] != seq!['#'],
    ensures
        from <= k <= f.len(),
        forall|i: int| 0 <= i < k ==> #[trigger] f[i] != seq!['#'],
        k < f.len() ==> f[k] == seq!['#'],
    decreases f.len() - from,
{
    if from == f.len() || f[from] == seq!['#'] {
        from
    } else {
        lemma_before_hash(f, from + 1)
    }
}

/// A filter, acceptable or not, matches exactly the topics that it covers place by
/// place.
pub proof fn law_matches_what_it_covers(filter: Seq<char>, topic: Seq<char>)
    ensures
        matches(filter, topic) <==> exists|k: int| #[trigger] covers_by_place(filter, topic, k),
{
    let f = text::levels(filter);
    let k = lemma_before_hash(f, 0);
    law_matches_by_place(filter, topic, k);
    if matches(filter, topic) {
        assert(covers_by_place(filter, topic, k));
    }
    if exists|j: int| #[trigger] covers_by_place(filter, topic, j) {
        let j = choose|j: int| #[trigger] covers_by_place(filter, topic, j);
        if j < k {
            assert(f[j] != seq!['#']);
        }
        if k < j {
            assert(f[k] != seq!['#']);
        }
    }
}

/// What the levels of a filter become as patterns: `+` any one level, `#` all that
/// follow, and anything else itself. In a topic name every level is itself.
pub proof fn law_patterns_by_level(s: Seq<char>, i: int)
    requires
        0 <= i < text::levels(s).len(),
    ensures
        filter_patterns(s).len() == text::levels(s).len(),
        text::levels(s)[i] == seq!['+'] ==> filter_patterns(s)[i] == PatternModel::Any,
        text::levels(s)[i] == seq!['#'] ==> filter_patterns(s)[i] == PatternModel::AnyPath,
        text::levels(s)[i] != seq!['+'] && text::levels(s)[i] != seq!['#'] ==> filter_patterns(s)[i]
            == PatternModel::Literal(text::levels(s)[i]),
        topic_patterns(s).len() == text::levels(s).len(),
        topic_patterns(s)[i] == PatternModel::Literal(text::levels(s)[i]),
{
    let plus: Seq<char> = seq!['+'];
    let hash: Seq<char> = seq!['#'];
    assert(plus[0] != hash[0]);
}

/// The filter of a path names each of its patterns by a level, with a slash between
/// two: a literal by itself, any one level and an expression by `+`, and all that follow
/// by `#`.
pub proof fn law_filter_of_a_path(path: Seq<PatternModel>, more: PatternModel)
    ensures
        wire_filter(Seq::empty()).len() == 0,
        wire_filter(seq![more]) == level_text(more),
        path.len() > 0 ==> wire_filter(path.push(more)) == wire_filter(path) + seq!['/']
            + level_text(more),
{
    let parts = Seq::new(path.len(), |i: int| pattern_text(path[i]));
    let longer = path.push(more);
    let all = Seq::new(longer.len(), |i: int| pattern_text(longer[i]));
    assert(all =~= parts.push(level_text(more)));
    let one: Seq<PatternModel> = seq![more];
    let single = Seq::new(one.len(), |i: int| pattern_text(one[i]));
    assert(single =~= seq![level_text(more)]);
    lemma_join_one(level_text(more));
    if path.len() > 0 {
        lemma_join_more(parts, level_text(more));
    }
}

/// The text of a level for a pattern.
pub open spec fn level_text(p: PatternModel) -> Seq<char> {
    match p {
        PatternModel::Literal(s) => s,
        PatternModel::Any => seq!['+'],
        PatternModel::Regex(_) => seq!['+'],
        PatternModel::AnyPath => seq!['#'],
    }
}

proof fn lemma_join_one(s: Seq<char>)
    ensures
        text::join_chars(seq![s], '/') == s,
{
}

proof fn lemma_join_more(parts: Seq<Seq<char>>, more: Seq<char>)
    requires
        parts.len() > 0,
    ensures
        text::join_chars(parts.push(more), '/') == text::join_chars(parts, '/') + seq!['/'] + more,
    decreases parts.len(),
{
    let longer = parts.push(more);
    if parts.len() == 1 {
        assert(longer.drop_first() =~= seq![more]);
        lemma_join_one(more);
    } else {
        let rest = parts.drop_first();
        lemma_join_more(rest, more);
        assert(longer.drop_first() =~= rest.push(more));
        assert(parts[0] + seq!['/'] + (text::join_chars(rest, '/') + seq!['/'] + more) =~= parts[0]
            + seq!['/'] + text::join_chars(rest, '/') + seq!['/'] + more);
    }
}

/// The levels of a text are what stands between its slashes: a text without a slash is
/// one level, and a slash behind a level starts the next one.
pub proof fn law_levels(first: Seq<char>, rest: Seq<char>)
    requires
        !first.contains('/'),
    ensures
        text::levels(first) == seq![first],
        text::levels(first + seq!['/'] + rest) == seq![first] + text::levels(rest),
{
    text::lemma_first_index(first, '/');
    let s = first + seq!['/'] + rest;
    assert(s[first.len() as int] == '/');
    assert forall|i: int| 0 <= i < first.len() implies s[i] != '/' by {
        assert(s[i] == first[i]);
        assert(first.contains(first[i]));
    }
    text::lemma_first_index_unique(s, '/', first.len() as int);
    assert(s.subrange(0, first.len() as int) =~= first);
    assert(s.subrange(first.len() as int + 1, s.len() as int) =~= rest);
}

/// The tokens of a filter: those of its levels, with a slash between two. A literal
/// level is one token, `+` a name in angles and `#` the type of a path in angles.
pub proof fn law_tokens_by_level(path: Seq<PatternModel>, more: PatternModel)
    ensures
        path_tokens(Seq::empty()).len() == 0,
        path_tokens(seq![more]) == level_tokens(more),
        path.len() > 0 ==> path_tokens(path.push(more)) == path_tokens(path) + seq![
            TokenModel::Slash,
        ] + level_tokens(more),
{
    assert(path.push(more).drop_last() =~= path);
}

/// The tokens of one level.
pub open spec fn level_tokens(p: PatternModel) -> Seq<TokenModel> {
    match p {
        PatternModel::Literal(s) => seq![TokenModel::Literal(s)],
        PatternModel::AnyPath => seq![
            TokenModel::AngleStart,
            TokenModel::Type(TypeKind::Path),
            TokenModel::AngleClose,
        ],
        PatternModel::Any => seq![
            TokenModel::AngleStart,
            TokenModel::Ident(seq!['_']),
            TokenModel::AngleClose,
        ],
        PatternModel::Regex(_) => seq![
            TokenModel::AngleStart,
            TokenModel::Ident(seq!['_']),
            TokenModel::AngleClose,
        ],
    }
}

/// Where an unacceptable filter is at fault: at the first level that may not stand
/// where it does, by the bytes in front of it.
pub proof fn law_fault_is_located(s: Seq<char>, k: int)
    requires
        0 < s.len(),
        encode_utf8(s).len() <= 65535,
        0 <= k < text::levels(s).len(),
        !sound_level(text::levels(s), k),
        forall|i: int| 0 <= i < k ==> #[trigger] sound_level(text::levels(s), i),
    ensures
        tokenize_filter(s) is Err,
        text::levels(s)[k] == seq!['#'] ==> tokenize_filter(s)->Err_0
            == (PatternErrorModel::AnyPathMixedWithOtherContent {
            at: level_offset(text::levels(s), k),
        }),
        text::levels(s)[k] != seq!['#'] ==> tokenize_filter(s)->Err_0
            == (PatternErrorModel::UnexpectedToken {
            at: level_offset(text::levels(s), k),
            token: TokenModel::Literal(text::levels(s)[k]),
        }),
        level_offset(text::levels(s), 0) == 0,
        k > 0 ==> level_offset(text::levels(s), k) == level_offset(text::levels(s), k - 1)
            + encode_utf8(text::levels(s)[k - 1]).len() + 1,
{
    let f = text::levels(s);
    lemma_first_fault(f, 0);
    let first = fault_level(f, 0);
    if first < k {
        assert(sound_level(f, first));
    }
    if k < first {
        assert(sound_level(f, k));
    }
}

} // verus!
