//! Hidden names and the `ls -l` permission string.

use vstd::prelude::*;
use crate::text::push_char;

verus! {

/// A name is hidden when it starts with a dot.
pub open spec fn hidden(name: Seq<char>) -> bool {
    name.len() > 0 && name[0] == '.'
}

/// Tells whether a directory entry is hidden, that is whether its name starts
/// with `'.'`.
pub fn is_hidden(entry_name: &str) -> (r: bool)
    ensures
        r == hidden(entry_name@),
{
    entry_name.unicode_len() > 0 && entry_name.get_char(0) == '.'
}

/// The mode bit shown at position `i` (0 to 8) of the permission part:
/// owner read, write, execute, then group, then others.
pub open spec fn perm_bit(i: int) -> u32 {
    if i == 0 {
        0o400
    } else if i == 1 {
        0o200
    } else if i == 2 {
        0o100
    } else if i == 3 {
        0o040
    } else if i == 4 {
        0o020
    } else if i == 5 {
        0o010
    } else if i == 6 {
        0o004
    } else if i == 7 {
        0o002
    } else {
        0o001
    }
}

/// The letter shown at position `i` when its bit is set: `r`, `w`, `x` in turn.
pub open spec fn perm_letter(i: int) -> char {
    if i % 3 == 0 {
        'r'
    } else if i % 3 == 1 {
        'w'
    } else {
        'x'
    }
}

/// The character at position `i` of the permission part.
pub open spec fn perm_char(mode: u32, i: int) -> char {
    if mode & perm_bit(i) != 0 {
        perm_letter(i)
    } else {
        '-'
    }
}

/// The file type character: a symbolic link wins over a directory.
pub open spec fn type_char(is_dir: bool, is_symlink: bool) -> char {
    if is_symlink {
        'l'
    } else if is_dir {
        'd'
    } else {
        '-'
    }
}

/// The whole ten-character permission string, such as `drwxr-xr-x`.
pub open spec fn mode_string(mode: u32, is_dir: bool, is_symlink: bool) -> Seq<char> {
    seq![type_char(is_dir, is_symlink)] + Seq::new(9, |i: int| perm_char(mode, i))
}

fn perm_bit_at(i: usize) -> (b: u32)
    requires
        i < 9,
    ensures
        b == perm_bit(i as int),
{
    if i == 0 {
        0o400
    } else if i == 1 {
        0o200
    } else if i == 2 {
        0o100
    } else if i == 3 {
        0o040
    } else if i == 4 {
        0o020
    } else if i == 5 {
        0o010
    } else if i == 6 {
        0o004
    } else if i == 7 {
        0o002
    } else {
        0o001
    }
}

fn perm_letter_at(i: usize) -> (c: char)
    ensures
        c == perm_letter(i as int),
{
    if i % 3 == 0 {
        'r'
    } else if i % 3 == 1 {
        'w'
    } else {
        'x'
    }
}

/// Builds the permission string of `ls -l` (for example `drwxr-xr-x`) from
/// the POSIX mode bits and the file type.
pub fn file_mode_string(mode: u32, is_dir: bool, is_symlink: bool) -> (s: String)
    ensures
        s@ == mode_string(mode, is_dir, is_symlink),
        s@.len() == 10,
        s@[0] == if is_symlink {
            'l'
        } else if is_dir {
            'd'
        } else {
            '-'
        },
        forall|i: int| 0 <= i < 9 ==> #[trigger] s@[i + 1] == if mode & (256u32 >> (i as u32)) != 0 {
            if i % 3 == 0 {
                'r'
            } else if i % 3 == 1 {
                'w'
            } else {
                'x'
            }
        } else {
            '-'
        },
{
    let ftype = if is_symlink {
        'l'
    } else if is_dir {
        'd'
    } else {
        '-'
    };
    let mut s = String::new();
    push_char(&mut s, ftype);
    let mut i: usize = 0;
    while i < 9
        invariant
            i <= 9,
            s@ == seq![type_char(is_dir, is_symlink)] + Seq::new(i as nat, |k: int| perm_char(mode, k)),
        decreases 9 - i,
    {
        let bit = perm_bit_at(i);
        let c = if mode & bit != 0 {
            perm_letter_at(i)
        } else {
            '-'
        };
        push_char(&mut s, c);
        i = i + 1;
        assert(s@ == seq![type_char(is_dir, is_symlink)] + Seq::new(i as nat, |k: int| perm_char(mode, k)));
    }
    proof {
        lemma_mode_string_bits(mode, is_dir, is_symlink);
    }
    s
}

/// The permission string is ten characters long: the type character, then
/// `r`, `w`, `x` or `-` for owner, group and others.  Only the nine
/// permission bits of the mode matter: file type bits, set-id and sticky
/// bits change nothing.
pub proof fn lemma_mode_string_shape(mode: u32, is_dir: bool, is_symlink: bool)
    ensures
        mode_string(mode, is_dir, is_symlink).len() == 10,
        mode_string(mode, is_dir, is_symlink)[0] == type_char(is_dir, is_symlink),
        forall|i: int| 0 <= i < 9 ==> {
            let c = #[trigger] mode_string(mode, is_dir, is_symlink)[i + 1];
            c == perm_letter(i) || c == '-'
        },
        mode_string(mode, is_dir, is_symlink) == mode_string(mode & 0o777, is_dir, is_symlink),
{
    let s = mode_string(mode, is_dir, is_symlink);
    let t = mode_string(mode & 0o777, is_dir, is_symlink);
    assert forall|i: int| 0 <= i < 9 implies #[trigger] perm_char(mode, i) == perm_char(mode & 0o777, i) by {
        let b = perm_bit(i);
        assert(b == 256 || b == 128 || b == 64 || b == 32 || b == 16 || b == 8 || b == 4 || b == 2 || b == 1);
        assert((mode & 0x1ff) & b == mode & b) by (bit_vector)
            requires
                b == 256 || b == 128 || b == 64 || b == 32 || b == 16 || b == 8 || b == 4 || b == 2 || b == 1;
    }
    assert forall|i: int| 0 <= i < 10 implies s[i] == t[i] by {
        if i > 0 {
            assert(s[i] == perm_char(mode, i - 1));
            assert(t[i] == perm_char(mode & 0o777, i - 1));
        }
    }
    assert(s =~= t);
    assert forall|i: int| 0 <= i < 9 implies {
        let c = #[trigger] s[i + 1];
        c == perm_letter(i) || c == '-'
    } by {
        assert(s[i + 1] == perm_char(mode, i));
    }
}

/// The bit read at position `i` of the permission part is `0o400 >> i`:
/// owner read first, other execute last.
pub proof fn lemma_perm_bit_is_shift(i: int)
    requires
        0 <= i < 9,
    ensures
        perm_bit(i) == (256u32 >> (i as u32)),
{
    assert(256u32 >> 0u32 == 256u32) by (bit_vector);
    assert(256u32 >> 1u32 == 128u32) by (bit_vector);
    assert(256u32 >> 2u32 == 64u32) by (bit_vector);
    assert(256u32 >> 3u32 == 32u32) by (bit_vector);
    assert(256u32 >> 4u32 == 16u32) by (bit_vector);
    assert(256u32 >> 5u32 == 8u32) by (bit_vector);
    assert(256u32 >> 6u32 == 4u32) by (bit_vector);
    assert(256u32 >> 7u32 == 2u32) by (bit_vector);
    assert(256u32 >> 8u32 == 1u32) by (bit_vector);
}

/// The permission string, character by character: first `l` for a symbolic
/// link, else `d` for a directory, else `-`; then, for `0 <= i < 9`,
/// character `i + 1` is `r`, `w`, `x` (by `i % 3`) exactly when the mode
/// has bit `0o400 >> i` set, and `-` otherwise.
pub proof fn lemma_mode_string_bits(mode: u32, is_dir: bool, is_symlink: bool)
    ensures
        mode_string(mode, is_dir, is_symlink).len() == 10,
        mode_string(mode, is_dir, is_symlink)[0] == if is_symlink {
            'l'
        } else if is_dir {
            'd'
        } else {
            '-'
        },
        forall|i: int| 0 <= i < 9 ==> #[trigger] mode_string(mode, is_dir, is_symlink)[i + 1] == if mode & (256u32 >> (i as u32)) != 0 {
            if i % 3 == 0 {
                'r'
            } else if i % 3 == 1 {
                'w'
            } else {
                'x'
            }
        } else {
            '-'
        },
{
    assert forall|i: int| 0 <= i < 9 implies #[trigger] mode_string(mode, is_dir, is_symlink)[i + 1] == if mode & (256u32 >> (i as u32)) != 0 {
        if i % 3 == 0 {
            'r'
        } else if i % 3 == 1 {
            'w'
        } else {
            'x'
        }
    } else {
        '-'
    } by {
        lemma_perm_bit_is_shift(i);
        assert(mode_string(mode, is_dir, is_symlink)[i + 1] == perm_char(mode, i));
    }
}

} // verus!
