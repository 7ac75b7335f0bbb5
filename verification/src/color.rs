//! Colours as the editor writes them.
use vstd::prelude::*;
use vstd::slice::slice_subrange;

use crate::binary::Binary32;
use crate::decimal::parse_single;
use crate::geometry::whole;
use crate::text::{chars_of, eq_ignore_ascii_case, trim};

verus! {

/// None of the pieces between the commas of a text is blank: the text is not empty, no comma
/// starts or ends it, and no two stand side by side.
pub open spec fn no_blank_field(s: Seq<char>) -> bool {
    forall|i: int|
        0 <= i < fields(s).len() ==> crate::text::trimmed(#[trigger] fields(s)[i]).len() > 0
}

/// What stands between the brackets of `name(...)`, without the white space around it;
/// nothing where the text is not of that form or an argument is blank.
pub open spec fn color_args(s: Seq<char>, name: Seq<char>) -> Option<Seq<char>> {
    if s.len() >= name.len() + 2 && crate::text::same_ignoring_case(
        s.take(name.len() as int),
        name,
    ) && s[name.len() as int] == '(' && s.last() == ')' {
        let inner = crate::text::trimmed(s.subrange(name.len() as int + 1, s.len() - 1));
        if no_blank_field(inner) {
            Some(inner)
        } else {
            None
        }
    } else {
        None
    }
}

/// The arguments of a colour function, see `color_args`.
pub fn strip_color_fn<'a>(s: &'a [char], name: &[char]) -> (r: Option<&'a [char]>)
    ensures
        match r {
            Some(inner) => color_args(s@, name@) == Some(inner@),
            None => color_args(s@, name@) is None,
        },
{
    let n: usize = name.len();
    if s.len() < n || s.len() - n < 2 {
        return None;
    }
    if !eq_ignore_ascii_case(slice_subrange(s, 0, n), name) {
        assert(s@.subrange(0, n as int) =~= s@.take(n as int));
        return None;
    }
    assert(s@.subrange(0, n as int) =~= s@.take(n as int));
    if s[n] != '(' || s[s.len() - 1] != ')' {
        return None;
    }
    let inner: &'a [char] = trim(slice_subrange(s, n + 1, s.len() - 1));
    let parts: Vec<Vec<char>> = split_fields(inner);
    assert(forall|i: int| 0 <= i < parts@.len() ==> fields(inner@)[i] == #[trigger] parts@[i]@);
    let mut i: usize = 0;
    while i < parts.len()
        invariant
            i <= parts@.len() == fields(inner@).len(),
            color_args(s@, name@) == (if no_blank_field(inner@) {
                Some(inner@)
            } else {
                None
            }),
            forall|j: int| 0 <= j < parts@.len() ==> fields(inner@)[j] == #[trigger] parts@[j]@,
            forall|j: int|
                0 <= j < i ==> crate::text::trimmed(#[trigger] fields(inner@)[j]).len() > 0,
        decreases parts@.len() - i,
    {
        if trim(parts[i].as_slice()).len() == 0 {
            assert(fields(inner@)[i as int] == parts@[i as int]@);
            return None;
        }
        i = i + 1;
    }
    Some(inner)
}

/// The pieces between the commas of a text.
pub open spec fn fields(s: Seq<char>) -> Seq<Seq<char>>
    decreases s.len(),
{
    if s.len() == 0 {
        seq![Seq::<char>::empty()]
    } else {
        let before = fields(s.drop_last());
        if s.last() == ',' {
            before.push(Seq::<char>::empty())
        } else {
            before.drop_last().push(before.last().push(s.last()))
        }
    }
}

pub open spec fn views(pieces: Seq<Vec<char>>) -> Seq<Seq<char>> {
    pieces.map_values(|piece: Vec<char>| piece@)
}

fn split_fields(s: &[char]) -> (pieces: Vec<Vec<char>>)
    ensures
        views(pieces@) == fields(s@),
{
    let mut pieces: Vec<Vec<char>> = Vec::new();
    let mut current: Vec<char> = Vec::new();
    let mut i: usize = 0;
    assert(s@.take(0) =~= Seq::<char>::empty());
    assert(views(pieces@).push(current@) =~= fields(s@.take(0)));
    while i < s.len()
        invariant
            i <= s.len(),
            views(pieces@).push(current@) == fields(s@.take(i as int)),
        decreases s.len() - i,
    {
        let ghost before = views(pieces@).push(current@);
        let ghost was = current@;
        assert(s@.take(i + 1).drop_last() =~= s@.take(i as int));
        assert(before.drop_last() =~= views(pieces@));
        if s[i] == ',' {
            let ghost old_pieces = pieces@;
            pieces.push(current);
            current = Vec::new();
            assert(views(pieces@) =~= views(old_pieces).push(was));
            assert(views(pieces@).push(current@) =~= before.push(Seq::<char>::empty()));
        } else {
            current.push(s[i]);
            assert(views(pieces@).push(current@) =~= before.drop_last().push(
                before.last().push(s@[i as int]),
            ));
        }
        i = i + 1;
    }
    assert(s@.take(i as int) =~= s@);
    let ghost old_pieces = pieces@;
    let ghost was = current@;
    pieces.push(current);
    assert(views(pieces@) =~= views(old_pieces).push(was));
    pieces
}

/// A number between 0 and `max`, as a fraction of `max`.
pub open spec fn channel(raw: Seq<char>, max: Binary32) -> Option<Binary32> {
    match crate::decimal::parsed_single(raw) {
        Some(n) => if !n.is_finite() || n.less(whole(0)) || max.less(n) {
            None
        } else {
            Some(n / max)
        },
        None => None,
    }
}

/// A number between 0 and `max`, as a fraction of `max`, see `channel`.
pub fn parse_color_channel(raw: &[char], max: Binary32) -> (r: Option<Binary32>)
    ensures
        r == channel(raw@, max),
{
    match parse_single(raw) {
        Some(n) => if !n.is_finite() || n.less(whole(0)) || max.less(n) {
            None
        } else {
            Some(n / max)
        },
        None => None,
    }
}

/// Three channels of 255 steps and an alpha from 0 to 1, which is 1 where it is left out.
pub open spec fn components(s: Seq<char>) -> Option<[Binary32; 4]> {
    let f = fields(s);
    if f.len() == 3 || f.len() == 4 {
        let alpha = if f.len() == 4 {
            channel(crate::text::trimmed(f[3]), whole(1))
        } else {
            Some(whole(1))
        };
        match (
            channel(crate::text::trimmed(f[0]), whole(255)),
            channel(crate::text::trimmed(f[1]), whole(255)),
            channel(crate::text::trimmed(f[2]), whole(255)),
            alpha,
        ) {
            (Some(r), Some(g), Some(b), Some(a)) => Some([r, g, b, a]),
            _ => None,
        }
    } else {
        None
    }
}

/// The colour of three or four comma-separated components, see `components`.
pub fn parse_rgb_components(s: &[char]) -> (r: Option<[Binary32; 4]>)
    ensures
        r == components(s@),
{
    let parts: Vec<Vec<char>> = split_fields(s);
    let ghost f = fields(s@);
    assert(views(parts@) == f);
    assert(f.len() == parts@.len());
    assert(forall|i: int| 0 <= i < parts@.len() ==> f[i] == #[trigger] parts@[i]@);
    if parts.len() != 3 && parts.len() != 4 {
        return None;
    }
    let alpha: Option<Binary32> = if parts.len() == 4 {
        parse_color_channel(trim(parts[3].as_slice()), whole(1))
    } else {
        Some(whole(1))
    };
    let red: Option<Binary32> = parse_color_channel(trim(parts[0].as_slice()), whole(255));
    let green: Option<Binary32> = parse_color_channel(trim(parts[1].as_slice()), whole(255));
    let blue: Option<Binary32> = parse_color_channel(trim(parts[2].as_slice()), whole(255));
    match (red, green, blue, alpha) {
        (Some(r), Some(g), Some(b), Some(a)) => Some([r, g, b, a]),
        _ => None,
    }
}

/// Without the number signs in front.
pub open spec fn without_hashes(s: Seq<char>) -> Seq<char>
    decreases s.len(),
{
    if s.len() > 0 && s[0] == '#' {
        without_hashes(s.drop_first())
    } else {
        s
    }
}

pub open spec fn hex_digit(c: char) -> Option<u32> {
    if '0' <= c <= '9' {
        Some((c as u32 - 48) as u32)
    } else if 'a' <= c <= 'f' {
        Some((c as u32 - 97 + 10) as u32)
    } else if 'A' <= c <= 'F' {
        Some((c as u32 - 65 + 10) as u32)
    } else {
        None
    }
}

fn to_hex_digit(c: char) -> (r: Option<u32>)
    ensures
        r == hex_digit(c),
        r matches Some(v) ==> v < 16,
{
    if '0' <= c && c <= '9' {
        Some(c as u32 - 48)
    } else if 'a' <= c && c <= 'f' {
        Some(c as u32 - 97 + 10)
    } else if 'A' <= c && c <= 'F' {
        Some(c as u32 - 65 + 10)
    } else {
        None
    }
}

/// Two hexadecimal digits, or a plus sign and one.
pub open spec fn hex_pair(a: char, b: char) -> Option<u32> {
    match (hex_digit(a), hex_digit(b)) {
        (Some(x), Some(y)) => Some((16 * x + y) as u32),
        (None, Some(y)) => if a == '+' {
            Some(y)
        } else {
            None
        },
        _ => None,
    }
}

fn to_hex_pair(a: char, b: char) -> (r: Option<u32>)
    ensures
        r == hex_pair(a, b),
{
    match (to_hex_digit(a), to_hex_digit(b)) {
        (Some(x), Some(y)) => Some(16 * x + y),
        (None, Some(y)) => if a == '+' {
            Some(y)
        } else {
            None
        },
        _ => None,
    }
}

/// An opaque colour of three channels of 255 steps.
pub open spec fn opaque_color(r: u32, g: u32, b: u32) -> [Binary32; 4] {
    [whole(r) / whole(255), whole(g) / whole(255), whole(b) / whole(255), whole(1)]
}

/// The colour of three or six hexadecimal digits; a single digit stands for itself twice.
pub open spec fn hex_color(h: Seq<char>) -> Option<[Binary32; 4]> {
    if h.len() == 3 {
        match (hex_digit(h[0]), hex_digit(h[1]), hex_digit(h[2])) {
            (Some(r), Some(g), Some(b)) => Some(
                opaque_color((17 * r) as u32, (17 * g) as u32, (17 * b) as u32),
            ),
            _ => None,
        }
    } else if h.len() == 6 {
        match (hex_pair(h[0], h[1]), hex_pair(h[2], h[3]), hex_pair(h[4], h[5])) {
            (Some(r), Some(g), Some(b)) => Some(opaque_color(r, g, b)),
            _ => None,
        }
    } else {
        None
    }
}

fn parse_hex_digits(h: &[char]) -> (r: Option<[Binary32; 4]>)
    ensures
        r == hex_color(h@),
{
    let parts: (Option<u32>, Option<u32>, Option<u32>) = if h.len() == 3 {
        match (to_hex_digit(h[0]), to_hex_digit(h[1]), to_hex_digit(h[2])) {
            (Some(r), Some(g), Some(b)) => (Some(17 * r), Some(17 * g), Some(17 * b)),
            _ => (None, None, None),
        }
    } else if h.len() == 6 {
        (to_hex_pair(h[0], h[1]), to_hex_pair(h[2], h[3]), to_hex_pair(h[4], h[5]))
    } else {
        (None, None, None)
    };
    match parts {
        (Some(r), Some(g), Some(b)) => Some(
            [whole(r) / whole(255), whole(g) / whole(255), whole(b) / whole(255), whole(1)],
        ),
        _ => None,
    }
}

/// The colour that a text names: the word `transparent`, a colour function, or
/// hexadecimal digits with or without number signs in front.
pub open spec fn parsed_color(s: Seq<char>) -> Option<[Binary32; 4]> {
    let t = crate::text::trimmed(s);
    if crate::text::same_ignoring_case(t, "transparent"@) {
        Some([whole(0), whole(0), whole(0), whole(0)])
    } else {
        match color_args(t, "rgba"@) {
            Some(inner) => components(inner),
            None => match color_args(t, "rgb"@) {
                Some(inner) => components(inner),
                None => hex_color(without_hashes(t)),
            },
        }
    }
}

/// Reads a colour, see `parsed_color`.
pub fn parse_hex(s: &str) -> (r: Option<[Binary32; 4]>)
    ensures
        r == parsed_color(s@),
{
    let chars: Vec<char> = chars_of(s);
    let t: &[char] = trim(chars.as_slice());
    if eq_ignore_ascii_case(t, chars_of("transparent").as_slice()) {
        return Some([whole(0), whole(0), whole(0), whole(0)]);
    }
    if let Some(inner) = strip_color_fn(t, chars_of("rgba").as_slice()) {
        return parse_rgb_components(inner);
    }
    if let Some(inner) = strip_color_fn(t, chars_of("rgb").as_slice()) {
        return parse_rgb_components(inner);
    }
    let mut i: usize = 0;
    assert(t@.skip(0) =~= t@);
    while i < t.len() && t[i] == '#'
        invariant
            i <= t.len(),
            without_hashes(t@) == without_hashes(t@.skip(i as int)),
        decreases t.len() - i,
    {
        assert(t@.skip(i as int).drop_first() =~= t@.skip(i + 1));
        i = i + 1;
    }
    let h: &[char] = slice_subrange(t, i, t.len());
    assert(h@ =~= t@.skip(i as int));
    parse_hex_digits(h)
}

proof fn lemma_nothing_to_trim(s: Seq<char>)
    requires
        s.len() > 0,
        !crate::text::is_white_space(s[0]),
        !crate::text::is_white_space(s.last()),
    ensures
        crate::text::trimmed(s) == s,
{
}

proof fn lemma_nothing_is_no_number()
    ensures
        crate::decimal::parsed_single(Seq::<char>::empty()) is None,
{
    reveal_strlit("inf");
    reveal_strlit("infinity");
    reveal_strlit("nan");
}

/// A blank argument is no component.
proof fn lemma_blank_field_is_no_color(s: Seq<char>)
    requires
        !no_blank_field(s),
    ensures
        components(s) is None,
{
    lemma_nothing_is_no_number();
    let i = choose|i: int|
        0 <= i < fields(s).len() && crate::text::trimmed(#[trigger] fields(s)[i]).len() == 0;
    assert(crate::text::trimmed(fields(s)[i]) =~= Seq::<char>::empty());
}

/// `rgb(...)` and `rgba(...)` are synonyms: either takes three components or four.
pub proof fn law_rgb_and_rgba_are_synonyms(inner: Seq<char>)
    ensures
        parsed_color("rgb("@ + inner + ")"@) == parsed_color("rgba("@ + inner + ")"@),
        parsed_color("rgb("@ + inner + ")"@) == components(crate::text::trimmed(inner)),
{
    reveal_strlit("rgb(");
    reveal_strlit("rgba(");
    reveal_strlit("rgb");
    reveal_strlit("rgba");
    reveal_strlit(")");
    reveal_strlit("transparent");
    let three = "rgb("@ + inner + ")"@;
    let four = "rgba("@ + inner + ")"@;
    lemma_nothing_to_trim(three);
    lemma_nothing_to_trim(four);
    assert(three[0] == 'r' && four[0] == 'r');
    assert(crate::text::ascii_lower(three[0]) != crate::text::ascii_lower("transparent"@[0]));
    assert(crate::text::ascii_lower(four[0]) != crate::text::ascii_lower("transparent"@[0]));
    assert(three.take(3) =~= "rgb"@);
    assert(four.take(4) =~= "rgba"@);
    assert(crate::text::same_ignoring_case(three.take(3), "rgb"@));
    assert(crate::text::same_ignoring_case(four.take(4), "rgba"@));
    assert(three.subrange(4, three.len() - 1) =~= inner);
    assert(four.subrange(5, four.len() - 1) =~= inner);
    assert(color_args(three, "rgba"@) is None) by {
        if three.len() >= 6 {
            assert(three.take(4)[3] == '(' && "rgba"@[3] == 'a');
            assert(crate::text::ascii_lower(three.take(4)[3]) != crate::text::ascii_lower(
                "rgba"@[3],
            ));
        }
    }
    assert(color_args(four, "rgb"@) is None) by {
        assert(four[3] == 'a');
    }
    if !no_blank_field(crate::text::trimmed(inner)) {
        lemma_blank_field_is_no_color(crate::text::trimmed(inner));
        assert(three.last() == ')' && four.last() == ')');
        assert(hex_digit(')') is None && hex_digit('r') is None);
        assert(without_hashes(three) == three && without_hashes(four) == four);
        assert(hex_color(three) is None && hex_color(four) is None);
    }
}

/// A colour function with a trailing comma or an empty argument names no colour.
pub proof fn law_blank_arguments_are_refused(s: Seq<char>, name: Seq<char>, inner: Seq<char>)
    requires
        s == name + seq!['('] + inner + seq![')'],
        !no_blank_field(crate::text::trimmed(inner)),
    ensures
        color_args(s, name) is None,
        components(crate::text::trimmed(inner)) is None,
{
    assert(s.subrange(name.len() as int + 1, s.len() - 1) =~= inner);
    lemma_blank_field_is_no_color(crate::text::trimmed(inner));
}

/// From 0 to 1.
pub open spec fn is_share(x: Binary32) -> bool {
    whole(0).at_most(x) && x.at_most(whole(1))
}

proof fn lemma_units_are_shares()
    ensures
        is_share(whole(0)),
        is_share(whole(1)),
{
    crate::estimate::lemma_whole(0);
    crate::estimate::lemma_whole(1);
    crate::estimate::lemma_order(whole(0), whole(0));
    crate::estimate::lemma_order(whole(0), whole(1));
    crate::estimate::lemma_order(whole(1), whole(1));
}

proof fn lemma_part_is_a_share(n: Binary32, max: u32)
    requires
        0 < max < 0x100_0000,
        n.is_finite(),
        !n.less(whole(0)),
        !whole(max).less(n),
    ensures
        is_share(n / whole(max)),
{
    crate::estimate::lemma_whole(0);
    crate::estimate::lemma_whole(1);
    crate::estimate::lemma_whole(max);
    crate::estimate::lemma_order(n, whole(0));
    crate::estimate::lemma_order(whole(max), n);
    let m = crate::estimate::value(whole(max));
    assert(1real * m == m);
    crate::estimate::lemma_quotient_at_most(n, whole(max), whole(1));
    crate::estimate::lemma_order(whole(0), n / whole(max));
    crate::estimate::lemma_order(n / whole(max), whole(1));
}

proof fn lemma_channels_are_shares(raw: Seq<char>, max: u32)
    requires
        0 < max < 0x100_0000,
    ensures
        channel(raw, whole(max)) matches Some(x) ==> is_share(x),
{
    match crate::decimal::parsed_single(raw) {
        Some(n) => {
            if n.is_finite() && !n.less(whole(0)) && !whole(max).less(n) {
                lemma_part_is_a_share(n, max);
            }
        },
        None => {},
    }
}

proof fn lemma_opaque_is_shares(r: u32, g: u32, b: u32)
    requires
        r <= 255,
        g <= 255,
        b <= 255,
    ensures
        forall|i: int| 0 <= i < 4 ==> is_share(#[trigger] opaque_color(r, g, b)[i]),
{
    lemma_units_are_shares();
    lemma_step_is_a_share(r);
    lemma_step_is_a_share(g);
    lemma_step_is_a_share(b);
}

proof fn lemma_step_is_a_share(n: u32)
    requires
        n <= 255,
    ensures
        is_share(whole(n) / whole(255)),
{
    crate::estimate::lemma_whole(n);
    crate::estimate::lemma_whole(0);
    crate::estimate::lemma_whole(255);
    crate::estimate::lemma_order(whole(n), whole(0));
    crate::estimate::lemma_order(whole(255), whole(n));
    lemma_part_is_a_share(whole(n), 255);
}

/// Every component of a colour lies between 0 and 1.
pub proof fn law_components_are_shares(s: Seq<char>, i: int)
    requires
        0 <= i < 4,
    ensures
        parsed_color(s) matches Some(c) ==> is_share(c[i]),
{
    let t = crate::text::trimmed(s);
    lemma_units_are_shares();
    if !crate::text::same_ignoring_case(t, "transparent"@) {
        match color_args(t, "rgba"@) {
            Some(inner) => {
                lemma_parsed_components_are_shares(inner, i);
            },
            None => match color_args(t, "rgb"@) {
                Some(inner) => {
                    lemma_parsed_components_are_shares(inner, i);
                },
                None => {
                    lemma_hex_is_shares(without_hashes(t), i);
                },
            },
        }
    }
}

proof fn lemma_parsed_components_are_shares(s: Seq<char>, i: int)
    requires
        0 <= i < 4,
    ensures
        components(s) matches Some(c) ==> is_share(c[i]),
{
    let f = fields(s);
    lemma_units_are_shares();
    if f.len() == 3 || f.len() == 4 {
        lemma_channels_are_shares(crate::text::trimmed(f[0]), 255);
        lemma_channels_are_shares(crate::text::trimmed(f[1]), 255);
        lemma_channels_are_shares(crate::text::trimmed(f[2]), 255);
        lemma_channels_are_shares(crate::text::trimmed(f[3]), 1);
    }
}

proof fn lemma_hex_is_shares(h: Seq<char>, i: int)
    requires
        0 <= i < 4,
    ensures
        hex_color(h) matches Some(c) ==> is_share(c[i]),
{
    if h.len() == 3 {
        match (hex_digit(h[0]), hex_digit(h[1]), hex_digit(h[2])) {
            (Some(r), Some(g), Some(b)) => {
                lemma_opaque_is_shares((17 * r) as u32, (17 * g) as u32, (17 * b) as u32);
            },
            _ => {},
        }
    } else if h.len() == 6 {
        match (hex_pair(h[0], h[1]), hex_pair(h[2], h[3]), hex_pair(h[4], h[5])) {
            (Some(r), Some(g), Some(b)) => {
                lemma_opaque_is_shares(r, g, b);
            },
            _ => {},
        }
    }
}

/// White space around a colour does not matter.
pub proof fn law_white_space_around_is_ignored(before: Seq<char>, s: Seq<char>, after: Seq<char>)
    requires
        crate::text::is_blank(before),
        crate::text::is_blank(after),
    ensures
        parsed_color(before + s + after) == parsed_color(s),
{
    crate::text::law_blanks_are_trimmed(before, s, after);
}

proof fn lemma_digit_twice(c: char)
    requires
        hex_digit(c) is Some,
    ensures
        hex_pair(c, c) == Some((17 * hex_digit(c)->0) as u32),
{
}

proof fn lemma_short_and_long(p: char, q: char, r: char)
    requires
        hex_digit(p) is Some,
        hex_digit(q) is Some,
        hex_digit(r) is Some,
    ensures
        hex_color(seq![p, q, r]) == hex_color(seq![p, p, q, q, r, r]),
        hex_color(seq![p, q, r]) matches Some(c) && c[3] == whole(1),
{
    lemma_digit_twice(p);
    lemma_digit_twice(q);
    lemma_digit_twice(r);
    let (x, y, z) = (
        (17 * hex_digit(p)->0) as u32,
        (17 * hex_digit(q)->0) as u32,
        (17 * hex_digit(r)->0) as u32,
    );
    assert(hex_color(seq![p, q, r]) == Some(opaque_color(x, y, z)));
    assert(hex_color(seq![p, p, q, q, r, r]) == Some(opaque_color(x, y, z)));
}

/// Three hexadecimal digits stand for the six in which each comes twice, and the colour is
/// opaque.
pub proof fn law_short_digits_stand_for_pairs(p: char, q: char, r: char)
    requires
        hex_digit(p) is Some,
        hex_digit(q) is Some,
        hex_digit(r) is Some,
    ensures
        parsed_color(seq!['#', p, q, r]) == parsed_color(seq!['#', p, p, q, q, r, r]),
        parsed_color(seq!['#', p, q, r]) == parsed_color(seq![p, p, q, q, r, r]),
        parsed_color(seq!['#', p, q, r]) matches Some(c) && c[3] == whole(1),
{
    let short = seq![p, q, r];
    let long = seq![p, p, q, q, r, r];
    lemma_short_and_long(p, q, r);
    let color = hex_color(short);
    assert(seq!['#'] + short =~= seq!['#', p, q, r]);
    assert(seq!['#'] + long =~= seq!['#', p, p, q, q, r, r]);
    assert(parsed_color(seq!['#'] + short) == color) by {
        law_hash_is_optional(short);
    }
    assert(parsed_color(seq!['#'] + long) == color && parsed_color(long) == color) by {
        law_hash_is_optional(long);
    }
}

/// The number sign in front of hexadecimal digits is optional.
pub proof fn law_hash_is_optional(digits: Seq<char>)
    requires
        hex_color(digits) is Some,
    ensures
        parsed_color(seq!['#'] + digits) == hex_color(digits),
        parsed_color(digits) == hex_color(digits),
{
    reveal_strlit("rgba");
    reveal_strlit("rgb");
    reveal_strlit("transparent");
    let hashed = seq!['#'] + digits;
    assert(hashed.drop_first() =~= digits);
    assert(digits[0] != '#');
    lemma_nothing_to_trim(digits);
    lemma_nothing_to_trim(hashed);
    assert(without_hashes(hashed) == without_hashes(digits));
    assert(hashed.last() != ')' && digits.last() != ')');
}

} // verus!
