//! Resolution of process-start arguments into the launch configuration, and
//! the reading of the display-mode directive the shell applies to its window.

use vstd::prelude::*;

verus! {

/// What the launch arguments resolved to: the image to open, when one was
/// named and found, and the display-mode directive, passed on verbatim.
pub struct LaunchConfig {
    pub image_path: Option<String>,
    pub display_mode: Option<String>,
}

/// Resolves the raw process arguments. The argument at position 0 is the
/// invocation token; the one at position 1 names the image to open and is
/// taken only when `image_exists` reports that a filesystem entry stands at
/// that path; the one at position 2 is the display-mode directive, taken
/// verbatim. Every missing or invalid part collapses to absence.
pub fn resolve_launch_config(args: &Vec<String>, image_exists: bool) -> (c: LaunchConfig)
    ensures
        args@.len() >= 2 && image_exists ==> (c.image_path matches Some(p) && p@ == args@[1]@),
        !(args@.len() >= 2 && image_exists) ==> c.image_path is None,
        args@.len() >= 3 ==> (c.display_mode matches Some(m) && m@ == args@[2]@),
        args@.len() < 3 ==> c.display_mode is None,
{
    let image_path = if args.len() >= 2 && image_exists {
        Some(args[1].clone())
    } else {
        None
    };
    let display_mode = if args.len() >= 3 {
        Some(args[2].clone())
    } else {
        None
    };
    LaunchConfig { image_path, display_mode }
}

/// How the shell should shape its window at launch.
#[derive(Clone, Copy, PartialEq, Eq, Structural, Debug)]
pub enum WindowDirective {
    /// Take the whole screen.
    FullScreen,
    /// A logical width and height in pixels.
    Size(u32, u32),
    /// Leave the window as it is.
    Default,
}

/// The numeric value of one decimal digit.
pub open spec fn digit_of(c: char) -> Option<u32> {
    match c {
        '0' => Some(0u32),
        '1' => Some(1u32),
        '2' => Some(2u32),
        '3' => Some(3u32),
        '4' => Some(4u32),
        '5' => Some(5u32),
        '6' => Some(6u32),
        '7' => Some(7u32),
        '8' => Some(8u32),
        '9' => Some(9u32),
        _ => None,
    }
}

/// The value of a run of decimal digits; absent when any character is not a
/// digit. The empty run reads as zero.
pub open spec fn digits_value(s: Seq<char>) -> Option<nat>
    decreases s.len(),
{
    if s.len() == 0 {
        Some(0)
    } else {
        match (digits_value(s.drop_last()), digit_of(s.last())) {
            (Some(v), Some(d)) => Some((v * 10 + d) as nat),
            _ => None,
        }
    }
}

/// What parsing a decimal number yields: an optional leading `+`, then at
/// least one digit, and a value that fits the type; anything else is absent.
pub open spec fn parse_u32_spec(s: Seq<char>) -> Option<u32> {
    let body = if s.len() > 0 && s[0] == '+' {
        s.drop_first()
    } else {
        s
    };
    if body.len() == 0 {
        None
    } else {
        match digits_value(body) {
            Some(v) => if v <= u32::MAX {
                Some(v as u32)
            } else {
                None
            },
            None => None,
        }
    }
}

/// A value of digits never shrinks as the run grows.
proof fn lemma_digits_value_prefix(t: Seq<char>, k: int)
    requires
        0 <= k <= t.len(),
        digits_value(t) is Some,
    ensures
        digits_value(t.subrange(0, k)) is Some,
        digits_value(t.subrange(0, k)).unwrap() <= digits_value(t).unwrap(),
    decreases t.len() - k,
{
    if k == t.len() {
        assert(t.subrange(0, k) =~= t);
    } else {
        assert(t.subrange(0, t.len() as int) =~= t);
        assert(t.drop_last() =~= t.subrange(0, t.len() - 1));
        lemma_digits_value_prefix(t.drop_last(), k);
        assert(t.drop_last().subrange(0, k) =~= t.subrange(0, k));
    }
}

/// One non-digit makes the whole run unreadable.
proof fn lemma_digits_value_nondigit(t: Seq<char>, j: int)
    requires
        0 <= j < t.len(),
        digit_of(t[j]) is None,
    ensures
        digits_value(t) is None,
    decreases t.len(),
{
    if j < t.len() - 1 {
        lemma_digits_value_nondigit(t.drop_last(), j);
    }
}

/// The numeric value of one decimal digit.
fn digit_exec(c: char) -> (r: Option<u32>)
    ensures
        r == digit_of(c),
{
    match c {
        '0' => Some(0u32),
        '1' => Some(1u32),
        '2' => Some(2u32),
        '3' => Some(3u32),
        '4' => Some(4u32),
        '5' => Some(5u32),
        '6' => Some(6u32),
        '7' => Some(7u32),
        '8' => Some(8u32),
        '9' => Some(9u32),
        _ => None,
    }
}

/// Parses a decimal number: an optional leading `+`, then at least one digit;
/// absent on any other character and on a value that does not fit.
pub fn parse_u32(s: &str) -> (r: Option<u32>)
    ensures
        r == parse_u32_spec(s@),
{
    let len = s.unicode_len();
    if len == 0 {
        return None;
    }
    let start: usize = if s.get_char(0) == '+' {
        1
    } else {
        0
    };
    if start == len {
        return None;
    }
    let ghost body = if s@[0] == '+' {
        s@.drop_first()
    } else {
        s@
    };
    proof {
        assert(body =~= s@.subrange(start as int, len as int));
    }
    let mut acc: u32 = 0;
    let mut i: usize = start;
    while i < len
        invariant
            start <= i <= len,
            digits_value(s@.subrange(start as int, i as int)) == Some(acc as nat),
        decreases len - i,
    {
        proof {
            assert(s@.subrange(start as int, i + 1).drop_last() =~= s@.subrange(
                start as int,
                i as int,
            ));
            assert(s@.subrange(start as int, i + 1).last() == s@[i as int]);
        }
        let c = s.get_char(i);
        let d = match digit_exec(c) {
            Some(d) => d,
            None => {
                proof {
                    lemma_digits_value_nondigit(body, i - start);
                }
                return None;
            },
        };
        let wide: u64 = acc as u64 * 10 + d as u64;
        if wide > u32::MAX as u64 {
            proof {
                assert(body.subrange(0, i + 1 - start) =~= s@.subrange(start as int, i + 1));
                if digits_value(body) is Some {
                    lemma_digits_value_prefix(body, i + 1 - start);
                }
            }
            return None;
        }
        acc = wide as u32;
        i += 1;
    }
    proof {
        assert(s@.subrange(start as int, len as int) =~= body);
    }
    Some(acc)
}

/// The index of the first `x` in `m`, or `-1` if there is none.
pub open spec fn first_x_index(m: Seq<char>) -> int
    decreases m.len(),
{
    if m.len() == 0 {
        -1
    } else if m[0] == 'x' {
        0
    } else {
        let r = first_x_index(m.drop_first());
        if r == -1 {
            -1
        } else {
            r + 1
        }
    }
}

proof fn lemma_first_x_index(m: Seq<char>)
    ensures
        -1 <= first_x_index(m) < m.len(),
        first_x_index(m) >= 0 ==> m[first_x_index(m)] == 'x',
        forall|j: int| 0 <= j < first_x_index(m) ==> m[j] != 'x',
        first_x_index(m) == -1 ==> forall|j: int| 0 <= j < m.len() ==> m[j] != 'x',
    decreases m.len(),
{
    if m.len() > 0 && m[0] != 'x' {
        lemma_first_x_index(m.drop_first());
        let r = first_x_index(m.drop_first());
        if r == -1 {
            assert forall|j: int| 0 <= j < m.len() implies m[j] != 'x' by {
                if j > 0 {
                    assert(m.drop_first()[j - 1] == m[j]);
                }
            }
        } else {
            assert forall|j: int| 0 <= j < r + 1 implies m[j] != 'x' by {
                if j > 0 {
                    assert(m.drop_first()[j - 1] == m[j]);
                }
            }
        }
    }
}

/// How a display-mode string reads as a window directive: the word
/// `FullScreen` takes the whole screen; a string split by its first `x` into
/// two readable numbers sets that size; everything else, a missing directive
/// included, leaves the window alone.
pub open spec fn window_directive_spec(mode: Option<Seq<char>>) -> WindowDirective {
    match mode {
        None => WindowDirective::Default,
        Some(m) => {
            if m == "FullScreen"@ {
                WindowDirective::FullScreen
            } else {
                let i = first_x_index(m);
                if i < 0 {
                    WindowDirective::Default
                } else {
                    match (parse_u32_spec(m.subrange(0, i)), parse_u32_spec(
                        m.subrange(i + 1, m.len() as int),
                    )) {
                        (Some(w), Some(h)) => WindowDirective::Size(w, h),
                        _ => WindowDirective::Default,
                    }
                }
            }
        },
    }
}

/// Reads the display-mode directive the resolver passed on verbatim.
pub fn parse_window_mode(mode: &Option<String>) -> (d: WindowDirective)
    ensures
        d == window_directive_spec(match *mode {
            Some(m) => Some(m@),
            None => None,
        }),
{
    let m = match mode {
        Some(m) => m,
        None => {
            return WindowDirective::Default;
        },
    };
    if crate::text::str_eq(m.as_str(), "FullScreen") {
        return WindowDirective::FullScreen;
    }
    proof {
        lemma_first_x_index(m@);
    }
    let len = m.as_str().unicode_len();
    let mut i: usize = 0;
    while i < len
        invariant
            i <= len,
            forall|j: int| 0 <= j < i ==> m@[j] != 'x',
        decreases len - i,
    {
        if m.as_str().get_char(i) == 'x' {
            let w = parse_u32(m.as_str().substring_char(0, i));
            let h = parse_u32(m.as_str().substring_char(i + 1, len));
            return match (w, h) {
                (Some(w), Some(h)) => WindowDirective::Size(w, h),
                _ => WindowDirective::Default,
            };
        }
        i += 1;
    }
    WindowDirective::Default
}

} // verus!
