//! The face lines of Wavefront OBJ models.
//!
//! A face line is `f` and a space, then white-space separated corners.  A
//! corner is `v/vt/vn`: a position index, then optionally a texture
//! coordinate index and a normal index, separated by slashes.
use vstd::prelude::*;

verus! {

/// The position, texture coordinate and normal indices of one corner.
pub type VertIndice = [u32; 3];

/// The corners of one face.
pub type Face = Vec<VertIndice>;

/// Whether `c` has the Unicode White_Space property: tab, line feed,
/// vertical tab, form feed, carriage return, space, next line, no-break
/// space, ogham space mark, the spaces U+2000 to U+200A, line and paragraph
/// separators, narrow no-break space, medium mathematical space and
/// ideographic space.
pub open spec fn white_space(c: char) -> bool {
    let u = c as u32;
    ||| 0x09 <= u <= 0x0D
    ||| u == 0x20
    ||| u == 0x85
    ||| u == 0xA0
    ||| u == 0x1680
    ||| 0x2000 <= u <= 0x200A
    ||| u == 0x2028
    ||| u == 0x2029
    ||| u == 0x202F
    ||| u == 0x205F
    ||| u == 0x3000
}

/// `char::is_whitespace`: true exactly for the characters with the Unicode
/// White_Space property, listed in `white_space`.
#[verifier::external_body]
fn is_white_space(c: char) -> (r: bool)
    ensures
        r == white_space(c),
{
    c.is_whitespace()
}

#[verifier::external_type_specification]
#[verifier::external_body]
pub struct ExParseIntError(std::num::ParseIntError);

pub open spec fn is_digit(c: char) -> bool {
    '0' <= c <= '9'
}

/// The value of a string of decimal digits.
pub open spec fn decimal(s: Seq<char>) -> int
    decreases s.len(),
{
    if s.len() == 0 {
        0
    } else {
        decimal(s.drop_last()) * 10 + (s.last() as int - '0' as int)
    }
}

/// What `str::parse::<u32>` accepts: an optional `+` followed by one or more
/// decimal digits whose value fits in `u32`.
pub open spec fn parsed_u32(s: Seq<char>) -> Option<u32> {
    let d = if s.len() > 0 && s[0] == '+' {
        s.drop_first()
    } else {
        s
    };
    if d.len() > 0 && (forall|i: int| 0 <= i < d.len() ==> is_digit(#[trigger] d[i])) && decimal(d)
        <= u32::MAX {
        Some(decimal(d) as u32)
    } else {
        None
    }
}

/// `str::parse::<u32>`: an optional `+` sign followed by only decimal
/// digits, the value fitting in `u32`; anything else (empty, another
/// character, overflow) is an error.
#[verifier::external_body]
fn parse_u32(s: &str) -> (r: Result<u32, std::num::ParseIntError>)
    ensures
        match r {
            Ok(v) => parsed_u32(s@) == Some(v),
            Err(_) => parsed_u32(s@) is None,
        },
{
    s.parse::<u32>()
}

/// `ParseIntError`'s `Display` text.  Nothing is claimed of it.
#[verifier::external_body]
fn parse_error_text(e: &std::num::ParseIntError) -> String {
    format!("{}", e)
}

/// Length of the run of characters that are not white space at the start
/// of `s`.
pub open spec fn word_len(s: Seq<char>) -> nat
    decreases s.len(),
{
    if s.len() == 0 || white_space(s[0]) {
        0
    } else {
        1 + word_len(s.drop_first())
    }
}

pub proof fn lemma_word_len_bound(s: Seq<char>)
    ensures
        word_len(s) <= s.len(),
    decreases s.len(),
{
    if s.len() != 0 && !white_space(s[0]) {
        lemma_word_len_bound(s.drop_first());
    }
}

/// The white-space separated words of `s`, as `str::split_whitespace`
/// gives them.
pub open spec fn words(s: Seq<char>) -> Seq<Seq<char>>
    decreases s.len(),
{
    if s.len() == 0 {
        Seq::<Seq<char>>::empty()
    } else if white_space(s[0]) {
        words(s.drop_first())
    } else {
        proof {
            lemma_word_len_bound(s);
        }
        seq![s.take(word_len(s) as int)] + words(s.skip(word_len(s) as int))
    }
}

/// Index of the first `/` in `t`, or its length when there is none.
pub open spec fn slash_pos(t: Seq<char>) -> nat
    decreases t.len(),
{
    if t.len() == 0 || t[0] == '/' {
        0
    } else {
        1 + slash_pos(t.drop_first())
    }
}

pub proof fn lemma_slash_pos_bound(t: Seq<char>)
    ensures
        slash_pos(t) <= t.len(),
        slash_pos(t) < t.len() ==> t[slash_pos(t) as int] == '/',
        forall|i: int| 0 <= i < slash_pos(t) ==> t[i] != '/',
    decreases t.len(),
{
    if t.len() != 0 && t[0] != '/' {
        lemma_slash_pos_bound(t.drop_first());
        assert forall|i: int| 0 <= i < slash_pos(t) implies t[i] != '/' by {
            if i > 0 {
                assert(t[i] == t.drop_first()[i - 1]);
            }
        }
    }
}

/// The parts of `t` between slashes, as `str::split('/')` gives them.
pub open spec fn slash_parts(t: Seq<char>) -> Seq<Seq<char>>
    decreases t.len(),
{
    proof {
        lemma_slash_pos_bound(t);
    }
    if slash_pos(t) >= t.len() {
        seq![t]
    } else {
        seq![t.take(slash_pos(t) as int)] + slash_parts(t.skip(slash_pos(t) + 1int))
    }
}

/// Part `i` of a corner read as an index; a missing or unreadable part
/// reads as 0.
pub open spec fn index_or_zero(parts: Seq<Seq<char>>, i: int) -> u32 {
    if i < parts.len() {
        match parsed_u32(parts[i]) {
            Some(v) => v,
            None => 0,
        }
    } else {
        0
    }
}

/// The indices of a corner word, or `None` when its first part is not an
/// index.
pub open spec fn corner(word: Seq<char>) -> Option<Seq<u32>> {
    let parts = slash_parts(word);
    match parsed_u32(parts[0]) {
        Some(v) => Some(seq![v, index_or_zero(parts, 1), index_or_zero(parts, 2)]),
        None => None,
    }
}

/// The line is a face line: it starts with `f` and a space.
pub open spec fn is_face_line(line: Seq<char>) -> bool {
    line.len() >= 2 && line[0] == 'f' && line[1] == ' '
}

/// What a line of an OBJ file holds, told by the word before its first
/// space.
#[derive(Clone, Copy, Debug, PartialEq, Eq, Structural)]
pub enum ObjLine {
    /// `v`: a vertex position.
    Vertex,
    /// `vt`: a texture coordinate.
    TexCoord,
    /// `vn`: a vertex normal.
    Normal,
    /// `f`: a face.
    Face,
    /// Any other word, or a line without a space.
    Other,
}

/// `line` starts with the word `w` and a space, so `w` is the part before
/// its first space.
pub open spec fn starts_with_word(line: Seq<char>, w: Seq<char>) -> bool {
    line.len() > w.len() && line.take(w.len() as int) == w && line[w.len() as int] == ' '
}

pub open spec fn obj_line(line: Seq<char>) -> ObjLine {
    if starts_with_word(line, seq!['v']) {
        ObjLine::Vertex
    } else if starts_with_word(line, seq!['v', 't']) {
        ObjLine::TexCoord
    } else if starts_with_word(line, seq!['v', 'n']) {
        ObjLine::Normal
    } else if starts_with_word(line, seq!['f']) {
        ObjLine::Face
    } else {
        ObjLine::Other
    }
}

/// Index of the first space in `t`, or its length when there is none.
pub open spec fn space_pos(t: Seq<char>) -> nat
    decreases t.len(),
{
    if t.len() == 0 || t[0] == ' ' {
        0
    } else {
        1 + space_pos(t.drop_first())
    }
}

/// The word before the first space of `line`; `None` when it has no space.
pub open spec fn first_word(line: Seq<char>) -> Option<Seq<char>> {
    if space_pos(line) < line.len() {
        Some(line.take(space_pos(line) as int))
    } else {
        None
    }
}

proof fn lemma_space_pos(t: Seq<char>)
    ensures
        space_pos(t) <= t.len(),
        space_pos(t) < t.len() ==> t[space_pos(t) as int] == ' ',
        forall|i: int| 0 <= i < space_pos(t) ==> t[i] != ' ',
    decreases t.len(),
{
    if t.len() != 0 && t[0] != ' ' {
        lemma_space_pos(t.drop_first());
        assert forall|i: int| 0 <= i < space_pos(t) implies t[i] != ' ' by {
            if i > 0 {
                assert(t[i] == t.drop_first()[i - 1]);
            }
        }
    }
}

proof fn lemma_space_pos_exact(t: Seq<char>, p: nat)
    requires
        p < t.len(),
        forall|i: int| 0 <= i < p ==> t[i] != ' ',
        t[p as int] == ' ',
    ensures
        space_pos(t) == p,
    decreases t.len(),
{
    if t[0] != ' ' {
        assert forall|i: int| 0 <= i < p - 1 implies t.drop_first()[i] != ' ' by {
            assert(t.drop_first()[i] == t[i + 1]);
        }
        lemma_space_pos_exact(t.drop_first(), (p - 1) as nat);
    }
}

/// For a word `w` without spaces, the line starts with `w` and a space
/// exactly when `w` is its first word.
proof fn lemma_first_word(line: Seq<char>, w: Seq<char>)
    requires
        forall|i: int| 0 <= i < w.len() ==> w[i] != ' ',
    ensures
        starts_with_word(line, w) <==> first_word(line) == Some(w),
{
    lemma_space_pos(line);
    if starts_with_word(line, w) {
        assert forall|i: int| 0 <= i < w.len() implies line[i] != ' ' by {
            assert(line.take(w.len() as int)[i] == line[i]);
        }
        lemma_space_pos_exact(line, w.len());
    }
    if first_word(line) == Some(w) {
        assert(line.take(space_pos(line) as int).len() == w.len());
    }
}

/// An OBJ line's kind is told by its first word alone: `v`, `vt`, `vn` and
/// `f` name vertex positions, texture coordinates, normals and faces, and
/// any other word, or no space at all, is `Other`.
pub proof fn lemma_obj_line_first_word(line: Seq<char>)
    ensures
        obj_line(line) == ObjLine::Vertex <==> first_word(line) == Some(seq!['v']),
        obj_line(line) == ObjLine::TexCoord <==> first_word(line) == Some(seq!['v', 't']),
        obj_line(line) == ObjLine::Normal <==> first_word(line) == Some(seq!['v', 'n']),
        obj_line(line) == ObjLine::Face <==> first_word(line) == Some(seq!['f']),
        obj_line(line) == ObjLine::Other <==> !(first_word(line) == Some(seq!['v']) || first_word(line)
            == Some(seq!['v', 't']) || first_word(line) == Some(seq!['v', 'n']) || first_word(line)
            == Some(seq!['f'])),
{
    let v = seq!['v'];
    let vt = seq!['v', 't'];
    let vn = seq!['v', 'n'];
    let f = seq!['f'];
    assert(forall|i: int| 0 <= i < v.len() ==> v[i] != ' ');
    assert(forall|i: int| 0 <= i < vt.len() ==> vt[i] != ' ');
    assert(forall|i: int| 0 <= i < vn.len() ==> vn[i] != ' ');
    assert(forall|i: int| 0 <= i < f.len() ==> f[i] != ' ');
    lemma_first_word(line, v);
    lemma_first_word(line, vt);
    lemma_first_word(line, vn);
    lemma_first_word(line, f);
    assert(v != vt && v != vn && v != f && vt != vn && vt != f && vn != f) by {
        assert(v.len() != vt.len());
        assert(vt[1] != vn[1]);
        assert(v[0] != f[0]);
        assert(vt.len() != f.len());
        assert(vn.len() != f.len());
        assert(v.len() != vn.len());
    }
}

/// What the line of an OBJ file holds: the word before its first space
/// is `v`, `vt`, `vn` or `f`; any other word, and a line without a space,
/// is `Other`.
pub fn obj_line_kind(line: &str) -> (r: ObjLine)
    ensures
        r == obj_line(line@),
        r == ObjLine::Face <==> is_face_line(line@),
        r == ObjLine::Vertex <==> first_word(line@) == Some(seq!['v']),
        r == ObjLine::TexCoord <==> first_word(line@) == Some(seq!['v', 't']),
        r == ObjLine::Normal <==> first_word(line@) == Some(seq!['v', 'n']),
        r == ObjLine::Face <==> first_word(line@) == Some(seq!['f']),
{
    proof {
        lemma_obj_line_first_word(line@);
    }
    let n = line.unicode_len();
    proof {
        if n >= 2 {
            assert(line@.take(1)[0] == line@[0]);
        }
        if n >= 3 {
            assert(line@.take(2)[0] == line@[0]);
            assert(line@.take(2)[1] == line@[1]);
        }
    }
    if n >= 2 && line.get_char(1) == ' ' {
        let c = line.get_char(0);
        assert(line@.take(1) =~= seq![c]);
        if c == 'v' {
            return ObjLine::Vertex;
        } else if c == 'f' {
            return ObjLine::Face;
        }
        return ObjLine::Other;
    }
    if n >= 3 && line.get_char(2) == ' ' && line.get_char(0) == 'v' {
        let c = line.get_char(1);
        assert(line@.take(2) =~= seq!['v', c]);
        if c == 't' {
            return ObjLine::TexCoord;
        } else if c == 'n' {
            return ObjLine::Normal;
        }
    }
    ObjLine::Other
}

/// The corner words of a face line.
pub open spec fn face_words(line: Seq<char>) -> Seq<Seq<char>> {
    words(line.skip(2))
}

pub open spec fn all_corners_read(ws: Seq<Seq<char>>) -> bool {
    forall|i: int| 0 <= i < ws.len() ==> (#[trigger] corner(ws[i])) is Some
}

fn is_slash(c: char) -> (r: bool)
    ensures
        r == (c == '/'),
{
    c == '/'
}

/// The characters of `s`.
fn chars_of(s: &str) -> (r: Vec<char>)
    ensures
        r@ == s@,
{
    let n = s.unicode_len();
    let mut r: Vec<char> = Vec::new();
    let mut i: usize = 0;
    while i < n
        invariant
            n == s@.len(),
            i <= n,
            r@ == s@.subrange(0, i as int),
        decreases n - i,
    {
        r.push(s.get_char(i));
        assert(r@ =~= s@.subrange(0, i + 1));
        i = i + 1;
    }
    assert(r@ =~= s@);
    r
}

/// Where the `/` that ends a part starting at `from` is, or `end`.
fn next_slash(cs: &Vec<char>, from: usize, end: usize) -> (p: usize)
    requires
        from <= end <= cs@.len(),
    ensures
        from <= p <= end,
        p == from + slash_pos(cs@.subrange(from as int, end as int)),
{
    let mut p = from;
    while p < end && !is_slash(cs[p])
        invariant
            from <= p <= end,
            end <= cs@.len(),
            forall|i: int| from <= i < p ==> cs@[i] != '/',
        decreases end - p,
    {
        p = p + 1;
    }
    proof {
        lemma_slash_pos_exact(cs@.subrange(from as int, end as int), (p - from) as nat);
    }
    p
}

/// `slash_pos` is the first `/`.
proof fn lemma_slash_pos_exact(t: Seq<char>, p: nat)
    requires
        p <= t.len(),
        forall|i: int| 0 <= i < p ==> t[i] != '/',
        p < t.len() ==> t[p as int] == '/',
    ensures
        slash_pos(t) == p,
    decreases t.len(),
{
    if t.len() != 0 && t[0] != '/' {
        assert forall|i: int| 0 <= i < p - 1 implies t.drop_first()[i] != '/' by {
            assert(t.drop_first()[i] == t[i + 1]);
        }
        lemma_slash_pos_exact(t.drop_first(), (p - 1) as nat);
    }
}

/// `word_len` is the run up to the first white space.
proof fn lemma_word_len_exact(s: Seq<char>, n: nat)
    requires
        n <= s.len(),
        forall|i: int| 0 <= i < n ==> !white_space(#[trigger] s[i]),
        n < s.len() ==> white_space(s[n as int]),
    ensures
        word_len(s) == n,
    decreases s.len(),
{
    if s.len() != 0 && !white_space(s[0]) {
        assert forall|i: int| 0 <= i < n - 1 implies !white_space(#[trigger] s.drop_first()[i]) by {
            assert(s.drop_first()[i] == s[i + 1]);
        }
        lemma_word_len_exact(s.drop_first(), (n - 1) as nat);
    }
}

/// Parts 0, 1 and 2 of a word, cut at the slashes found at `p1` and `p2`.
proof fn lemma_slash_parts(t: Seq<char>, p1: nat, p2: nat)
    requires
        p1 == slash_pos(t),
        p1 < t.len() ==> p2 == p1 + 1 + slash_pos(t.skip(p1 + 1int)),
    ensures
        slash_parts(t)[0] == t.take(p1 as int),
        slash_parts(t).len() >= 1,
        p1 < t.len() ==> slash_parts(t).len() >= 2 && p2 <= t.len() && slash_parts(t)[1] == t.subrange(
            p1 + 1int,
            p2 as int,
        ),
        p1 >= t.len() ==> slash_parts(t).len() == 1,
        p1 < t.len() && p2 >= t.len() ==> slash_parts(t).len() == 2,
        p1 < t.len() && p2 < t.len() ==> slash_parts(t).len() >= 3,
{
    lemma_slash_pos_bound(t);
    if p1 < t.len() {
        let rest = t.skip(p1 + 1int);
        lemma_slash_pos_bound(rest);
        assert(slash_parts(t) == seq![t.take(p1 as int)] + slash_parts(rest));
        if slash_pos(rest) >= rest.len() {
            assert(slash_parts(rest) == seq![rest]);
            assert(rest =~= t.subrange(p1 + 1int, p2 as int));
        } else {
            assert(slash_parts(rest) == seq![rest.take(slash_pos(rest) as int)] + slash_parts(
                rest.skip(slash_pos(rest) + 1int),
            ));
            assert(rest.take(slash_pos(rest) as int) =~= t.subrange(p1 + 1int, p2 as int));
        }
    } else {
        assert(t.take(p1 as int) =~= t);
    }
}

/// The indices of the corner word `line[i..j]`.
#[verifier::rlimit(40)]
fn read_corner(line: &str, cs: &Vec<char>, i: usize, j: usize) -> (r: Result<VertIndice, String>)
    requires
        cs@ == line@,
        i <= j <= cs@.len(),
    ensures
        match corner(cs@.subrange(i as int, j as int)) {
            Some(e) => r matches Ok(v) && v@ == e,
            None => r matches Err(m) && m@.take(20) == "parse vertex index: "@,
        },
{
    let ghost word = cs@.subrange(i as int, j as int);
    let p1 = next_slash(cs, i, j);
    let p2 = if p1 < j {
        next_slash(cs, p1 + 1, j)
    } else {
        j
    };
    let p3 = if p2 < j {
        next_slash(cs, p2 + 1, j)
    } else {
        j
    };
    proof {
        if p1 < j {
            assert(word.skip(p1 - i + 1) =~= cs@.subrange(p1 + 1, j as int));
        }
        lemma_slash_parts(word, (p1 - i) as nat, (p2 - i) as nat);
        if p1 < j {
            assert(word.subrange(p1 - i + 1, p2 - i) =~= cs@.subrange(p1 + 1, p2 as int));
            let w2 = word.skip(p1 - i + 1);
            if p2 < j {
                assert(w2.skip(p2 - p1) =~= cs@.subrange(p2 + 1, j as int));
            }
            lemma_slash_parts(w2, (p2 - p1 - 1) as nat, (p3 - p1 - 1) as nat);
            assert(slash_parts(word) =~= seq![word.take(p1 - i)] + slash_parts(w2));
            if p2 < j {
                assert(slash_parts(word)[2] == slash_parts(w2)[1]);
                assert(w2.subrange(p2 - p1, p3 - p1 - 1) =~= cs@.subrange(p2 + 1, p3 as int));
            }
        }
        assert(word.take(p1 - i) =~= cs@.subrange(i as int, p1 as int));
    }
    let first = match parse_u32(line.substring_char(i, p1)) {
        Ok(v) => v,
        Err(e) => {
            let mut msg = String::from_str("parse vertex index: ");
            let text = parse_error_text(&e);
            msg.append(text.as_str());
            proof {
                reveal_strlit("parse vertex index: ");
                assert(msg@ == "parse vertex index: "@ + text@);
                assert("parse vertex index: "@.len() == 20);
            }
            assert(msg@.take(20) =~= "parse vertex index: "@);
            return Err(msg);
        },
    };
    let second = if p1 < j {
        match parse_u32(line.substring_char(p1 + 1, p2)) {
            Ok(v) => v,
            Err(_) => 0,
        }
    } else {
        0
    };
    let third = if p2 < j {
        match parse_u32(line.substring_char(p2 + 1, p3)) {
            Ok(v) => v,
            Err(_) => 0,
        }
    } else {
        0
    };
    let entry: VertIndice = [first, second, third];
    proof {
        let parts = slash_parts(word);
        assert(parsed_u32(parts[0]) == Some(first));
        assert(index_or_zero(parts, 1) == second);
        assert(index_or_zero(parts, 2) == third);
        assert(entry@.len() == 3);
        assert(entry@[0] == first && entry@[1] == second && entry@[2] == third);
        assert(entry@ =~= corner(word)->0);
    }
    Ok(entry)
}

/// Reads the corners of a face line `f v/vt/vn v/vt/vn ...`.  A corner's
/// texture and normal indices are optional and read as 0 when missing or
/// unreadable; its position index must be a number.
pub fn parse_face_vert_indice(line: &str) -> (r: Result<Vec<VertIndice>, String>)
    ensures
        !is_face_line(line@) ==> (r matches Err(e) && e@ == "invalid face data"@),
        is_face_line(line@) && all_corners_read(face_words(line@)) ==> (r matches Ok(v) && v@.len()
            == face_words(line@).len() && forall|i: int|
            0 <= i < v@.len() ==> #[trigger] v@[i]@ == corner(face_words(line@)[i])->0),
        is_face_line(line@) && !all_corners_read(face_words(line@)) ==> (r matches Err(e)
            && e@.take(20) == "parse vertex index: "@),
{
    proof {
        reveal_strlit("invalid face data");
        reveal_strlit("parse vertex index: ");
    }
    let cs = chars_of(line);
    let n = cs.len();
    if !(n >= 2 && cs[0] == 'f' && cs[1] == ' ') {
        return Err(String::from_str("invalid face data"));
    }
    let ghost all = face_words(line@);
    let ghost mut done: Seq<Seq<char>> = Seq::empty();
    let mut out: Vec<VertIndice> = Vec::new();
    let mut i: usize = 2;
    assert(line@.skip(2) =~= cs@.skip(2));
    while i < n
        invariant
            cs@ == line@,
            is_face_line(line@),
            n == cs@.len(),
            2 <= i <= n,
            all == face_words(line@),
            all == done + words(cs@.skip(i as int)),
            out@.len() == done.len(),
            forall|k: int| 0 <= k < done.len() ==> (#[trigger] corner(done[k])) is Some,
            forall|k: int| 0 <= k < out@.len() ==> #[trigger] out@[k]@ == corner(done[k])->0,
        decreases n - i,
    {
        let ghost rest = cs@.skip(i as int);
        if is_white_space(cs[i]) {
            assert(rest.drop_first() =~= cs@.skip(i + 1));
            i = i + 1;
        } else {
            let mut j = i;
            while j < n && !is_white_space(cs[j])
                invariant
                    i <= j <= n,
                    n == cs@.len(),
                    forall|k: int| i <= k < j ==> !white_space(#[trigger] cs@[k]),
                decreases n - j,
            {
                j = j + 1;
            }
            proof {
                assert forall|k: int| 0 <= k < j - i implies !white_space(#[trigger] rest[k]) by {
                    assert(rest[k] == cs@[i + k]);
                }
                lemma_word_len_exact(rest, (j - i) as nat);
                assert(rest.skip(j - i) =~= cs@.skip(j as int));
            }
            let ghost word = cs@.subrange(i as int, j as int);
            assert(rest.take(j - i) =~= word);
            assert(words(rest) == seq![word] + words(cs@.skip(j as int)));
            let entry = match read_corner(line, &cs, i, j) {
                Ok(v) => v,
                Err(m) => {
                    proof {
                        assert(!all_corners_read(all)) by {
                            assert(corner(all[done.len() as int]) is None);
                        }
                    }
                    return Err(m);
                },
            };
            out.push(entry);
            proof {
                assert(all == (done + seq![word]) + words(cs@.skip(j as int)));
                done = done + seq![word];
            }
            i = j;
        }
    }
    proof {
        assert(words(cs@.skip(n as int)) =~= Seq::<Seq<char>>::empty()) by {
            assert(cs@.skip(n as int).len() == 0);
        }
        assert(done =~= all);
    }
    Ok(out)
}

} // verus!
