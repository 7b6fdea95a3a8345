//! Which scene the program shows: the choice made from the command line,
//! with a random scene when none is given.

use vstd::prelude::*;
use rand::Rng;
use crate::draw::drawn_from;

verus! {

/// Number of the highest scene.
pub const SCENE_COUNT: i8 = 7;

/// The scenes the program can show.
#[derive(Clone, Copy, Debug, PartialEq, Eq, Structural)]
pub enum SceneChoice {
    SimpleSpheres,
    Spheres,
    Quad,
    Cube,
    Suzanne,
    Lucy,
    Dragon,
}

/// Scene 2 is the sphere scene, 3 to 7 the quad, the cube, Suzanne, Lucy and
/// the dragon; any other number gives the simple sphere scene.
pub open spec fn scene_of(id: i8) -> SceneChoice {
    if id == 2 {
        SceneChoice::Spheres
    } else if id == 3 {
        SceneChoice::Quad
    } else if id == 4 {
        SceneChoice::Cube
    } else if id == 5 {
        SceneChoice::Suzanne
    } else if id == 6 {
        SceneChoice::Lucy
    } else if id == 7 {
        SceneChoice::Dragon
    } else {
        SceneChoice::SimpleSpheres
    }
}

/// The scene shown for a scene number.
pub fn scene_for_id(id: i8) -> (choice: SceneChoice)
    ensures
        choice == scene_of(id),
{
    match id {
        2 => SceneChoice::Spheres,
        3 => SceneChoice::Quad,
        4 => SceneChoice::Cube,
        5 => SceneChoice::Suzanne,
        6 => SceneChoice::Lucy,
        7 => SceneChoice::Dragon,
        _ => SceneChoice::SimpleSpheres,
    }
}

pub open spec fn is_digit(c: char) -> bool {
    '0' <= c && c <= '9'
}

pub open spec fn all_digits(s: Seq<char>) -> bool {
    forall|i: int| 0 <= i < s.len() ==> is_digit(#[trigger] s[i])
}

/// The value of a run of decimal digits.
pub open spec fn digits_value(s: Seq<char>) -> int
    decreases s.len(),
{
    if s.len() == 0 {
        0
    } else {
        digits_value(s.drop_last()) * 10 + (s.last() as int - 48)
    }
}

/// What parsing text as an `i8` gives: an optional `+` or `-`, then one or
/// more decimal digits whose value, with the sign, lies in `-128..=127`.
/// Anything else (empty text, a lone sign, any other character, a value out
/// of range) gives nothing.
pub open spec fn parse_i8_spec(s: Seq<char>) -> Option<i8> {
    let neg = s.len() > 0 && s[0] == '-';
    let body = if s.len() > 0 && (s[0] == '-' || s[0] == '+') { s.drop_first() } else { s };
    let v = if neg { -digits_value(body) } else { digits_value(body) };
    if body.len() == 0 || !all_digits(body) || v < -128 || v > 127 {
        None
    } else {
        Some(v as i8)
    }
}

proof fn lemma_digits_value_grows(s: Seq<char>, k: int)
    requires
        0 <= k <= s.len(),
        all_digits(s),
    ensures
        digits_value(s.subrange(0, k)) <= digits_value(s),
        digits_value(s.subrange(0, k)) >= 0,
    decreases s.len() - k,
{
    if k < s.len() {
        lemma_digits_value_grows(s, k + 1);
        let pre = s.subrange(0, k + 1);
        assert(pre.drop_last() =~= s.subrange(0, k));
        assert(is_digit(s[k]));
    } else {
        assert(s.subrange(0, k) =~= s);
        lemma_digits_value_nonneg(s);
    }
}

proof fn lemma_digits_value_nonneg(s: Seq<char>)
    requires
        all_digits(s),
    ensures
        digits_value(s) >= 0,
    decreases s.len(),
{
    if s.len() > 0 {
        assert(is_digit(s.last()));
        lemma_digits_value_nonneg(s.drop_last());
    }
}

/// Parses text as an `i8` the way `str::parse::<i8>` does.
pub fn parse_i8(s: &str) -> (r: Option<i8>)
    ensures
        r == parse_i8_spec(s@),
{
    let len = s.unicode_len();
    let mut pos: usize = 0;
    let mut neg = false;
    if len > 0 {
        let c = s.get_char(0);
        if c == '-' {
            neg = true;
            pos = 1;
        } else if c == '+' {
            pos = 1;
        }
    }
    let ghost body = if s@.len() > 0 && (s@[0] == '-' || s@[0] == '+') { s@.drop_first() } else { s@ };
    proof {
        assert(body =~= s@.subrange(pos as int, s@.len() as int));
    }
    if pos >= len {
        return None;
    }
    let mut acc: i32 = 0;
    let mut i = pos;
    while i < len
        invariant
            pos <= i <= len,
            len == s@.len(),
            body =~= s@.subrange(pos as int, len as int),
            body == (if s@.len() > 0 && (s@[0] == '-' || s@[0] == '+') { s@.drop_first() } else { s@ }),
            neg == (s@.len() > 0 && s@[0] == '-'),
            all_digits(body.subrange(0, i - pos)),
            acc == digits_value(body.subrange(0, i - pos)),
            0 <= acc <= 128,
        decreases len - i,
    {
        let c = s.get_char(i);
        if !('0' <= c && c <= '9') {
            proof {
                assert(body[i - pos] == c);
                assert(!is_digit(body[i - pos]));
                assert(!all_digits(body));
            }
            return None;
        }
        let d = (c as u32 - 48) as i32;
        proof {
            let pre = body.subrange(0, i - pos + 1);
            assert(pre.drop_last() =~= body.subrange(0, i - pos));
            assert(pre.last() == c);
            assert(all_digits(pre));
        }
        acc = acc * 10 + d;
        i = i + 1;
        if acc > 128 {
            proof {
                assert(acc == digits_value(body.subrange(0, i - pos)));
                if all_digits(body) {
                    lemma_digits_value_grows(body, i - pos);
                    assert(digits_value(body) > 128);
                }
            }
            return None;
        }
    }
    proof {
        assert(body.subrange(0, len - pos) =~= body);
    }
    let v = if neg { -acc } else { acc };
    if v < -128 || v > 127 {
        None
    } else {
        Some(v as i8)
    }
}

/// Draws a number with `rand::Rng::gen_range(low..=high)` on the generator
/// from `rand::thread_rng()`. The contract claims only what rand documents:
/// the result lies in the inclusive range (it panics only on an empty range,
/// which `requires` rules out), and it is an outcome of a draw over that
/// range (`drawn_from`). Which number comes out is left unsaid: it is
/// random.
#[verifier::external_body]
fn random_in(low: i8, high: i8) -> (r: i8)
    requires
        low <= high,
    ensures
        low <= r <= high,
        drawn_from(r, low, high),
{
    rand::thread_rng().gen_range(low..=high)
}

/// The scene number given on the command line (`args[1]`) when it parses as
/// an `i8`, else `fallback`.
pub fn scene_id_from_args(args: &Vec<String>, fallback: i8) -> (id: i8)
    ensures
        id == (if args.len() >= 2 && parse_i8_spec(args@[1]@) is Some {
            parse_i8_spec(args@[1]@)->0
        } else {
            fallback
        }),
{
    if args.len() < 2 {
        return fallback;
    }
    match parse_i8(args[1].as_str()) {
        Some(id) => id,
        None => fallback,
    }
}

/// The scene number to show: the one given on the command line when it
/// parses as an `i8`, else the outcome of a draw over all the scenes,
/// `1..=SCENE_COUNT`.
pub fn parse_args(args: &Vec<String>) -> (id: i8)
    ensures
        args.len() >= 2 && parse_i8_spec(args@[1]@) is Some ==> id == parse_i8_spec(args@[1]@)->0,
        !(args.len() >= 2 && parse_i8_spec(args@[1]@) is Some) ==> 1 <= id <= SCENE_COUNT,
        !(args.len() >= 2 && parse_i8_spec(args@[1]@) is Some) ==> drawn_from(id, 1, SCENE_COUNT),
{
    let fallback = random_in(1, SCENE_COUNT);
    scene_id_from_args(args, fallback)
}

} // verus!
