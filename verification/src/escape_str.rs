use vstd::prelude::*;
use vstd::string::*;

verus! {

// ---------------------------------------------------------------------------
// Model: what escaping means, character by character.
// ---------------------------------------------------------------------------

/// The five characters that are significant inside XML character data.
pub open spec fn is_masked_char(c: char) -> bool {
    c == '<' || c == '>' || c == '"' || c == '\'' || c == '&'
}

/// The replacement text for `<`.
pub open spec fn lt_entity() -> Seq<char> {
    seq!['&', 'l', 't', ';']
}

/// The replacement text for `>`.
pub open spec fn gt_entity() -> Seq<char> {
    seq!['&', 'g', 't', ';']
}

/// The replacement text for `"`.
pub open spec fn quot_entity() -> Seq<char> {
    seq!['&', 'q', 'u', 'o', 't', ';']
}

/// The replacement text for `'`.
pub open spec fn apos_entity() -> Seq<char> {
    seq!['&', 'a', 'p', 'o', 's', ';']
}

/// The replacement text for `&`.
pub open spec fn amp_entity() -> Seq<char> {
    seq!['&', 'a', 'm', 'p', ';']
}

/// What one character contributes to the escaped text: its entity if it is
/// one of the five masked characters, the character itself otherwise.
pub open spec fn mask_seq(c: char) -> Seq<char> {
    if c == '<' {
        lt_entity()
    } else if c == '>' {
        gt_entity()
    } else if c == '"' {
        quot_entity()
    } else if c == '\'' {
        apos_entity()
    } else if c == '&' {
        amp_entity()
    } else {
        seq![c]
    }
}

/// The escaped form of a text: each character replaced by its contribution,
/// in order. This is the contract of `escape_char_data`.
pub open spec fn escape_seq(s: Seq<char>) -> Seq<char>
    decreases s.len(),
{
    if s.len() == 0 {
        Seq::empty()
    } else {
        mask_seq(s[0]) + escape_seq(s.skip(1))
    }
}

/// How a standard XML reader decodes character data: at each position, the
/// entity standing there is consumed if one of the five is present,
/// otherwise one character is taken verbatim. None of the five entities is a
/// prefix of another, so at most one matches at a time.
pub open spec fn unescape_seq(t: Seq<char>) -> Seq<char>
    decreases t.len(),
{
    if t.len() == 0 {
        Seq::empty()
    } else if t.len() >= 4 && t.take(4) == lt_entity() {
        seq!['<'] + unescape_seq(t.skip(4))
    } else if t.len() >= 4 && t.take(4) == gt_entity() {
        seq!['>'] + unescape_seq(t.skip(4))
    } else if t.len() >= 5 && t.take(5) == amp_entity() {
        seq!['&'] + unescape_seq(t.skip(5))
    } else if t.len() >= 6 && t.take(6) == quot_entity() {
        seq!['"'] + unescape_seq(t.skip(6))
    } else if t.len() >= 6 && t.take(6) == apos_entity() {
        seq!['\''] + unescape_seq(t.skip(6))
    } else {
        seq![t[0]] + unescape_seq(t.skip(1))
    }
}

// ---------------------------------------------------------------------------
// Laws of the escaper.
// ---------------------------------------------------------------------------

/// Escaping distributes over appending one character at the end.
pub proof fn lemma_escape_seq_push(s: Seq<char>, c: char)
    ensures
        escape_seq(s.push(c)) == escape_seq(s) + mask_seq(c),
    decreases s.len(),
{
    if s.len() == 0 {
        assert(s.push(c)[0] == c);
        assert(s.push(c).skip(1) =~= Seq::<char>::empty());
        assert(escape_seq(Seq::<char>::empty()) == Seq::<char>::empty());
        assert(escape_seq(s.push(c)) == mask_seq(c) + escape_seq(Seq::<char>::empty()));
        assert(escape_seq(s.push(c)) =~= escape_seq(s) + mask_seq(c));
    } else {
        assert(s.push(c)[0] == s[0]);
        assert(s.push(c).skip(1) =~= s.skip(1).push(c));
        lemma_escape_seq_push(s.skip(1), c);
        assert(escape_seq(s.push(c)) =~= escape_seq(s) + mask_seq(c));
    }
}

/// A text containing none of the five masked characters escapes to itself.
pub proof fn lemma_escape_identity(s: Seq<char>)
    requires
        forall|i: int| 0 <= i < s.len() ==> !is_masked_char(s[i]),
    ensures
        escape_seq(s) == s,
    decreases s.len(),
{
    if s.len() == 0 {
        assert(escape_seq(s) =~= s);
    } else {
        assert(!is_masked_char(s[0]));
        lemma_escape_identity(s.skip(1));
        assert(seq![s[0]] + s.skip(1) =~= s);
    }
}

/// One of the five entities stands at position `i` of `t`.
pub open spec fn entity_at(t: Seq<char>, i: int) -> bool {
    ||| (i + 4 <= t.len() && t.subrange(i, i + 4) == lt_entity())
    ||| (i + 4 <= t.len() && t.subrange(i, i + 4) == gt_entity())
    ||| (i + 5 <= t.len() && t.subrange(i, i + 5) == amp_entity())
    ||| (i + 6 <= t.len() && t.subrange(i, i + 6) == quot_entity())
    ||| (i + 6 <= t.len() && t.subrange(i, i + 6) == apos_entity())
}

/// The character at position `i` of `t` is safe inside XML character data:
/// it is none of `< > " '`, and if it is `&` it starts one of the five
/// entities.
pub open spec fn safe_char_at(t: Seq<char>, i: int) -> bool {
    &&& t[i] != '<'
    &&& t[i] != '>'
    &&& t[i] != '"'
    &&& t[i] != '\''
    &&& (t[i] == '&' ==> entity_at(t, i))
}

proof fn lemma_entity_at_shift(h: Seq<char>, rest: Seq<char>, j: int)
    requires
        0 <= j < rest.len(),
        entity_at(rest, j),
    ensures
        entity_at(h + rest, h.len() + j),
{
    let t = h + rest;
    if j + 4 <= rest.len() && rest.subrange(j, j + 4) == lt_entity() {
        assert(t.subrange(h.len() + j, h.len() + j + 4) =~= rest.subrange(j, j + 4));
    } else if j + 4 <= rest.len() && rest.subrange(j, j + 4) == gt_entity() {
        assert(t.subrange(h.len() + j, h.len() + j + 4) =~= rest.subrange(j, j + 4));
    } else if j + 5 <= rest.len() && rest.subrange(j, j + 5) == amp_entity() {
        assert(t.subrange(h.len() + j, h.len() + j + 5) =~= rest.subrange(j, j + 5));
    } else if j + 6 <= rest.len() && rest.subrange(j, j + 6) == quot_entity() {
        assert(t.subrange(h.len() + j, h.len() + j + 6) =~= rest.subrange(j, j + 6));
    } else {
        assert(t.subrange(h.len() + j, h.len() + j + 6) =~= rest.subrange(j, j + 6));
    }
}

/// Escaped text contains none of the five raw characters un-escaped: the four
/// markup characters do not occur at all, and every `&` begins one of the
/// five entities.
pub proof fn lemma_escape_safe(s: Seq<char>)
    ensures
        forall|i: int| 0 <= i < escape_seq(s).len() ==> #[trigger] safe_char_at(escape_seq(s), i),
    decreases s.len(),
{
    if s.len() == 0 {
    } else {
        let h = mask_seq(s[0]);
        let rest = escape_seq(s.skip(1));
        let t = escape_seq(s);
        assert(t == h + rest);
        lemma_escape_safe(s.skip(1));
        assert forall|i: int| 0 <= i < t.len() implies #[trigger] safe_char_at(t, i) by {
            if i < h.len() {
                assert(t[i] == h[i]);
                if is_masked_char(s[0]) {
                    // Each entity starts with `&` and continues with letters
                    // and `;`; the whole entity is a prefix of `t` at 0, so a
                    // shift by 0 witnesses `entity_at` for position 0.
                    assert(t.subrange(0, h.len() as int) =~= h);
                    assert(i == 0 ==> entity_at(t, 0));
                } else {
                    assert(h =~= seq![s[0]]);
                    assert(t[i] == s[0]);
                }
            } else {
                let j = i - h.len();
                assert(t[i] == rest[j]);
                assert(safe_char_at(rest, j));
                if rest[j] == '&' {
                    lemma_entity_at_shift(h, rest, j);
                }
            }
        }
    }
}

/// Round trip: decoding the escaped form of any text yields the text back.
pub proof fn lemma_unescape_escape(s: Seq<char>)
    ensures
        unescape_seq(escape_seq(s)) == s,
    decreases s.len(),
{
    if s.len() == 0 {
        assert(unescape_seq(escape_seq(s)) =~= s);
    } else {
        let c = s[0];
        let h = mask_seq(c);
        let rest = escape_seq(s.skip(1));
        let t = escape_seq(s);
        assert(t == h + rest);
        lemma_unescape_escape(s.skip(1));
        if c == '<' {
            assert(t.take(4) =~= lt_entity());
            assert(t.skip(4) =~= rest);
            assert(seq!['<'] + s.skip(1) =~= s);
        } else if c == '>' {
            assert(t.take(4)[1] == 'g');
            assert(t.take(4) =~= gt_entity());
            assert(t.skip(4) =~= rest);
            assert(seq!['>'] + s.skip(1) =~= s);
        } else if c == '&' {
            assert(t.take(4)[1] == 'a');
            assert(t.take(5) =~= amp_entity());
            assert(t.skip(5) =~= rest);
            assert(seq!['&'] + s.skip(1) =~= s);
        } else if c == '"' {
            assert(t.take(4)[1] == 'q');
            assert(t.take(5)[1] == 'q');
            assert(t.take(6) =~= quot_entity());
            assert(t.skip(6) =~= rest);
            assert(seq!['"'] + s.skip(1) =~= s);
        } else if c == '\'' {
            assert(t.take(4)[1] == 'a');
            assert(t.take(5)[2] == 'p');
            assert(t.take(6) =~= apos_entity());
            assert(t.skip(6) =~= rest);
            assert(seq!['\''] + s.skip(1) =~= s);
        } else {
            assert(t[0] == c);
            assert(t.len() >= 4 ==> t.take(4)[0] == c);
            assert(t.len() >= 5 ==> t.take(5)[0] == c);
            assert(t.len() >= 6 ==> t.take(6)[0] == c);
            assert(t.skip(1) =~= rest);
            assert(seq![c] + s.skip(1) =~= s);
        }
    }
}

// ---------------------------------------------------------------------------
// Executable escaper.
// ---------------------------------------------------------------------------

/// The replacement for one character: its entity if it is one of the five
/// masked characters, nothing otherwise.
pub fn mask(c: char) -> (r: Option<&'static str>)
    ensures
        match r {
            Some(m) => is_masked_char(c) && m@ == mask_seq(c),
            None => !is_masked_char(c),
        },
{
    proof {
        reveal_strlit("&lt;");
        reveal_strlit("&gt;");
        reveal_strlit("&quot;");
        reveal_strlit("&apos;");
        reveal_strlit("&amp;");
        assert("&lt;"@ =~= lt_entity());
        assert("&gt;"@ =~= gt_entity());
        assert("&quot;"@ =~= quot_entity());
        assert("&apos;"@ =~= apos_entity());
        assert("&amp;"@ =~= amp_entity());
    }
    match c {
        '<' => Some("&lt;"),
        '>' => Some("&gt;"),
        '"' => Some("&quot;"),
        '\'' => Some("&apos;"),
        '&' => Some("&amp;"),
        _ => None,
    }
}

/// The position of the first character that needs escaping, if any.
fn first_masked_index(s: &str) -> (r: Option<usize>)
    ensures
        match r {
            Some(i) => {
                &&& i < s@.len()
                &&& is_masked_char(s@[i as int])
                &&& forall|j: int| 0 <= j < i ==> !is_masked_char(s@[j])
            },
            None => forall|j: int| 0 <= j < s@.len() ==> !is_masked_char(s@[j]),
        },
{
    let n = s.unicode_len();
    let mut i: usize = 0;
    while i < n
        invariant
            i <= n,
            n == s@.len(),
            forall|j: int| 0 <= j < i ==> !is_masked_char(s@[j]),
        decreases n - i,
    {
        let c = s.get_char(i);
        if mask(c).is_some() {
            return Some(i);
        }
        i = i + 1;
    }
    None
}

/// Escapes a text for use inside XML character data: each of `< > " ' &` is
/// replaced by its entity, every other character passes through unchanged.
/// If nothing needs escaping the text is copied as it is; otherwise the
/// unescaped prefix is copied verbatim and the remainder is scanned and
/// substituted.
pub fn escape_char_data(unescaped: &str) -> (r: String)
    ensures
        r@ == escape_seq(unescaped@),
{
    match first_masked_index(unescaped) {
        None => {
            proof {
                lemma_escape_identity(unescaped@);
            }
            unescaped.to_owned()
        },
        Some(first) => {
            let n = unescaped.unicode_len();
            let prefix = unescaped.substring_char(0, first);
            let mut buf = prefix.to_owned();
            proof {
                assert(forall|j: int| 0 <= j < prefix@.len() ==> !is_masked_char(#[trigger] prefix@[j]));
                lemma_escape_identity(prefix@);
                assert(prefix@ =~= unescaped@.take(first as int));
            }
            let mut i: usize = first;
            while i < n
                invariant
                    i <= n,
                    n == unescaped@.len(),
                    buf@ == escape_seq(unescaped@.take(i as int)),
                decreases n - i,
            {
                let c = unescaped.get_char(i);
                match mask(c) {
                    Some(m) => buf.append(m),
                    None => {
                        let one = unescaped.substring_char(i, i + 1);
                        proof {
                            assert(one@ =~= seq![unescaped@[i as int]]);
                        }
                        buf.append(one);
                    },
                }
                proof {
                    lemma_escape_seq_push(unescaped@.take(i as int), unescaped@[i as int]);
                    assert(unescaped@.take(i + 1) =~= unescaped@.take(i as int).push(
                        unescaped@[i as int],
                    ));
                }
                i = i + 1;
            }
            proof {
                assert(unescaped@.take(n as int) =~= unescaped@);
            }
            buf
        },
    }
}

} // verus!
