use vstd::prelude::*;

verus! {

/// One unit of a tokenized command template.
#[derive(Clone, Copy, PartialEq, Eq, Debug, Structural)]
pub enum Token {
    BaseAndExt,
    Basename,
    Character(char),
    Dirname,
    Job,
    JobTotal,
    Placeholder,
    RemoveExtension,
    Slot,
}

/// The directive spelled by the text between a pair of braces, if any.
pub open spec fn directive_of(p: Seq<char>) -> Option<Token> {
    if p == seq!['.'] {
        Some(Token::RemoveExtension)
    } else if p == seq!['#'] {
        Some(Token::Job)
    } else if p == seq!['%'] {
        Some(Token::Slot)
    } else if p == seq!['/'] {
        Some(Token::Basename)
    } else if p == seq!['/', '/'] {
        Some(Token::Dirname)
    } else if p == seq!['/', '.'] {
        Some(Token::BaseAndExt)
    } else if p == seq!['#', '^'] {
        Some(Token::JobTotal)
    } else {
        None
    }
}

/// The literal token of one character.
pub open spec fn literal(c: char) -> Token {
    Token::Character(c)
}

/// Each character as a literal token, in order.
pub open spec fn literal_tokens(s: Seq<char>) -> Seq<Token> {
    s.map_values(|c: char| literal(c))
}

/// The tokens for a closed pattern `{p}`: the placeholder when `p` is empty,
/// the directive that `p` spells, or else the whole span as literals.
pub open spec fn closed_pattern_tokens(p: Seq<char>) -> Seq<Token> {
    if p.len() == 0 {
        seq![Token::Placeholder]
    } else {
        match directive_of(p) {
            Some(t) => seq![t],
            None => seq![Token::Character('{')] + literal_tokens(p) + seq![Token::Character('}')],
        }
    }
}

/// The tokens of a template `s` read from its start outside any pattern.
pub open spec fn tokens_of(s: Seq<char>) -> Seq<Token>
    decreases s.len(), 1int,
{
    if s.len() == 0 {
        Seq::empty()
    } else if s[0] == '{' {
        pattern_tokens(Seq::empty(), s.drop_first())
    } else {
        seq![Token::Character(s[0])] + tokens_of(s.drop_first())
    }
}

/// The tokens of the rest `s` of a template when a pattern is open and
/// `p` has been read into it since its `{`.
pub open spec fn pattern_tokens(p: Seq<char>, s: Seq<char>) -> Seq<Token>
    decreases s.len(), 0int,
{
    if s.len() == 0 {
        seq![Token::Character('{')] + literal_tokens(p)
    } else if s[0] == '}' {
        closed_pattern_tokens(p) + tokens_of(s.drop_first())
    } else {
        pattern_tokens(p.push(s[0]), s.drop_first())
    }
}

/// Looks up the directive that a pattern's text spells.
fn match_token(pattern: &Vec<char>) -> (r: Option<Token>)
    ensures
        r == directive_of(pattern@),
{
    let n = pattern.len();
    if n == 1 {
        let c = pattern[0];
        if c == '.' {
            assert(pattern@ =~= seq!['.']);
            Some(Token::RemoveExtension)
        } else if c == '#' {
            assert(pattern@ =~= seq!['#']);
            Some(Token::Job)
        } else if c == '%' {
            assert(pattern@ =~= seq!['%']);
            Some(Token::Slot)
        } else if c == '/' {
            assert(pattern@ =~= seq!['/']);
            Some(Token::Basename)
        } else {
            None
        }
    } else if n == 2 {
        let c0 = pattern[0];
        let c1 = pattern[1];
        if c0 == '/' && c1 == '/' {
            assert(pattern@ =~= seq!['/', '/']);
            Some(Token::Dirname)
        } else if c0 == '/' && c1 == '.' {
            assert(pattern@ =~= seq!['/', '.']);
            Some(Token::BaseAndExt)
        } else if c0 == '#' && c1 == '^' {
            assert(pattern@ =~= seq!['#', '^']);
            Some(Token::JobTotal)
        } else {
            None
        }
    } else {
        None
    }
}

/// Literal tokens grow with their text one character at a time.
proof fn lemma_literal_tokens_push(s: Seq<char>, c: char)
    ensures
        literal_tokens(s.push(c)) == literal_tokens(s).push(literal(c)),
{
    assert(literal_tokens(s.push(c)) =~= literal_tokens(s).push(literal(c)));
}

/// Appends each character of `chars` to `tokens` as a literal token.
fn push_literals(tokens: &mut Vec<Token>, chars: &Vec<char>)
    ensures
        final(tokens)@ == old(tokens)@ + literal_tokens(chars@),
{
    let ghost start = tokens@;
    assert(start + literal_tokens(chars@.take(0)) =~= start);
    for i in 0..chars.len()
        invariant
            tokens@ == start + literal_tokens(chars@.take(i as int)),
    {
        let ghost done = tokens@;
        tokens.push(Token::Character(chars[i]));
        assert(tokens@ == done.push(literal(chars@[i as int])));
        assert(chars@.take(i + 1) =~= chars@.take(i as int).push(chars[i as int]));
        proof {
            lemma_literal_tokens_push(chars@.take(i as int), chars@[i as int]);
        }
        assert(literal_tokens(chars@.take(i + 1)) == literal_tokens(chars@.take(i as int)).push(
            literal(chars@[i as int]),
        ));
        assert(tokens@ =~= start + literal_tokens(chars@.take(i + 1)));
    }
    assert(chars@.take(chars.len() as int) =~= chars@);
}

/// Reduces a command template to its tokens: `{` opens a pattern that the
/// next `}` closes; a closed pattern becomes its directive, or its literal
/// text when it spells none; a pattern left open at the end becomes its
/// literal text without a closing brace; every other character is a literal.
pub fn tokenize(template: &str) -> (r: Vec<Token>)
    ensures
        r@ == tokens_of(template@),
{
    let mut matching = false;
    let mut tokens: Vec<Token> = Vec::new();
    let mut pattern: Vec<char> = Vec::new();
    let ghost s = template@;
    assert(s.skip(0) =~= s);
    assert(tokens@ + tokens_of(s) =~= tokens_of(s));
    for character in it: template.chars()
        invariant
            it.seq() == s,
            !matching ==> pattern@.len() == 0,
            !matching ==> tokens@ + tokens_of(s.skip(it.index() as int)) == tokens_of(s),
            matching ==> tokens@ + pattern_tokens(pattern@, s.skip(it.index() as int))
                == tokens_of(s),
    {
        let ghost rest = s.skip(it.index() as int);
        let ghost next = s.skip(it.index() + 1);
        let ghost before = tokens@;
        let ghost read = pattern@;
        assert(rest[0] == character);
        assert(rest.drop_first() =~= next);
        if character == '{' && !matching {
            matching = true;
            assert(pattern@ =~= Seq::<char>::empty());
            assert(tokens_of(rest) == pattern_tokens(Seq::empty(), rest.drop_first()));
            assert(tokens@ + pattern_tokens(pattern@, next) =~= tokens_of(s));
        } else if character == '}' && matching {
            matching = false;
            if pattern.len() == 0 {
                tokens.push(Token::Placeholder);
            } else {
                match match_token(&pattern) {
                    Some(token) => tokens.push(token),
                    None => {
                        tokens.push(Token::Character('{'));
                        push_literals(&mut tokens, &pattern);
                        tokens.push(Token::Character('}'));
                    },
                }
                pattern.clear();
            }
            assert(tokens@ =~= before + closed_pattern_tokens(read));
            assert(tokens@ + tokens_of(next) =~= before + pattern_tokens(read, rest));
        } else if !matching {
            tokens.push(Token::Character(character));
            assert(rest[0] != '{');
            assert(tokens_of(rest) == seq![literal(rest[0])] + tokens_of(rest.drop_first()));
            assert(tokens@ + tokens_of(next) =~= before + tokens_of(rest));
        } else {
            pattern.push(character);
            assert(pattern_tokens(pattern@, next) == pattern_tokens(read, rest));
        }
    }
    assert(s.skip(s.len() as int) =~= Seq::<char>::empty());
    if matching {
        let ghost before = tokens@;
        tokens.push(Token::Character('{'));
        push_literals(&mut tokens, &pattern);
        assert(tokens@ =~= before + pattern_tokens(pattern@, Seq::empty()));
    } else {
        assert(tokens@ =~= tokens@ + tokens_of(Seq::empty()));
    }
    tokens
}

/// No character of `s` opens a pattern.
pub open spec fn opens_none(s: Seq<char>) -> bool {
    forall|i: int| 0 <= i < s.len() ==> s[i] != '{'
}

/// No character of `s` closes a pattern.
pub open spec fn closes_none(s: Seq<char>) -> bool {
    forall|i: int| 0 <= i < s.len() ==> s[i] != '}'
}

/// Text that opens no pattern scans to its literal tokens, and then the
/// scan goes on with what follows as if from the start.
proof fn lemma_literal_prefix(a: Seq<char>, t: Seq<char>)
    requires
        opens_none(a),
    ensures
        tokens_of(a + t) == literal_tokens(a) + tokens_of(t),
    decreases a.len(),
{
    if a.len() == 0 {
        assert(a + t =~= t);
        assert(literal_tokens(a) + tokens_of(t) =~= tokens_of(t));
    } else {
        let rest = a.drop_first();
        assert((a + t).drop_first() =~= rest + t);
        assert((a + t)[0] == a[0]);
        lemma_literal_prefix(rest, t);
        assert(literal_tokens(a) =~= seq![literal(a[0])] + literal_tokens(rest));
        assert(tokens_of(a + t) =~= literal_tokens(a) + tokens_of(t));
    }
}

/// Inside an open pattern, text without `}` is read into the pattern, and
/// the next `}` closes it.
proof fn lemma_pattern_closes(p: Seq<char>, q: Seq<char>, t: Seq<char>)
    requires
        closes_none(q),
    ensures
        pattern_tokens(p, q + seq!['}'] + t) == closed_pattern_tokens(p + q) + tokens_of(t),
    decreases q.len(),
{
    let s = q + seq!['}'] + t;
    if q.len() == 0 {
        assert(p + q =~= p);
        assert(s[0] == '}');
        assert(s.drop_first() =~= t);
    } else {
        let rest = q.drop_first();
        assert(s[0] == q[0]);
        assert(s.drop_first() =~= rest + seq!['}'] + t);
        assert(p.push(q[0]) + rest =~= p + q);
        lemma_pattern_closes(p.push(q[0]), rest, t);
    }
}

/// A pattern that no `}` closes before the end of the input becomes its
/// literal text, opening brace included.
proof fn lemma_pattern_unclosed(p: Seq<char>, q: Seq<char>)
    requires
        closes_none(q),
    ensures
        pattern_tokens(p, q) == seq![literal('{')] + literal_tokens(p + q),
    decreases q.len(),
{
    if q.len() == 0 {
        assert(p + q =~= p);
    } else {
        let rest = q.drop_first();
        assert(p.push(q[0]) + rest =~= p + q);
        lemma_pattern_unclosed(p.push(q[0]), rest);
    }
}

/// Text with no braces scans to one literal token per character, in order;
/// that is, to the characters mapped one by one to literal tokens.
pub proof fn lemma_brace_free_is_literal(s: Seq<char>)
    requires
        opens_none(s),
        closes_none(s),
    ensures
        tokens_of(s).len() == s.len(),
        forall|i: int| 0 <= i < s.len() ==> tokens_of(s)[i] == Token::Character(s[i]),
        tokens_of(s) == s.map_values(|c: char| literal(c)),
{
    lemma_literal_prefix(s, Seq::empty());
    assert(s + Seq::empty() =~= s);
    assert(literal_tokens(s) + tokens_of(Seq::empty()) =~= literal_tokens(s));
}

/// A pattern `{p}` between brace-free texts `a` and `b` scans to the literals
/// of `a`, then what the closed pattern stands for (the placeholder, its
/// directive, or its literal text), then the literals of `b`: it takes no
/// character of either side, and the order is kept.
pub proof fn lemma_pattern_between_literals(a: Seq<char>, p: Seq<char>, b: Seq<char>)
    requires
        opens_none(a),
        closes_none(a),
        closes_none(p),
        opens_none(b),
        closes_none(b),
    ensures
        tokens_of(a + seq!['{'] + p + seq!['}'] + b) == literal_tokens(a) + closed_pattern_tokens(p)
            + literal_tokens(b),
        p.len() == 0 ==> tokens_of(a + seq!['{'] + p + seq!['}'] + b) == literal_tokens(a) + seq![
            Token::Placeholder,
        ] + literal_tokens(b),
        forall|t: Token|
            directive_of(p) == Some(t) ==> tokens_of(a + seq!['{'] + p + seq!['}'] + b)
                == literal_tokens(a) + seq![t] + literal_tokens(b),
        p.len() > 0 && directive_of(p) is None ==> tokens_of(a + seq!['{'] + p + seq!['}'] + b)
            == literal_tokens(a + seq!['{'] + p + seq!['}'] + b),
{
    let s = a + seq!['{'] + p + seq!['}'] + b;
    let t = seq!['{'] + p + seq!['}'] + b;
    assert(s =~= a + t);
    lemma_literal_prefix(a, t);
    assert(t[0] == '{');
    assert(t.drop_first() =~= p + seq!['}'] + b);
    lemma_pattern_closes(Seq::empty(), p, b);
    assert(Seq::<char>::empty() + p =~= p);
    lemma_brace_free_is_literal(b);
    assert(literal_tokens(a) + (closed_pattern_tokens(p) + literal_tokens(b)) =~= literal_tokens(a)
        + closed_pattern_tokens(p) + literal_tokens(b));
    if p.len() > 0 && directive_of(p) is None {
        assert(literal_tokens(s) =~= literal_tokens(a) + closed_pattern_tokens(p) + literal_tokens(
            b,
        ));
    }
}

/// A pattern that is never closed becomes literal text: the opening brace and
/// all that follows it, with no closing brace added.
pub proof fn lemma_unclosed_pattern_is_literal(a: Seq<char>, p: Seq<char>)
    requires
        opens_none(a),
        closes_none(p),
    ensures
        tokens_of(a + seq!['{'] + p) == literal_tokens(a + seq!['{'] + p),
{
    let t = seq!['{'] + p;
    assert(a + seq!['{'] + p =~= a + t);
    lemma_literal_prefix(a, t);
    assert(t[0] == '{');
    assert(t.drop_first() =~= p);
    lemma_pattern_unclosed(Seq::empty(), p);
    assert(Seq::<char>::empty() + p =~= p);
    assert(literal_tokens(a) + (seq![literal('{')] + literal_tokens(p)) =~= literal_tokens(
        a + seq!['{'] + p,
    ));
}

} // verus!
