//! POSIX file types and permission bits.
use vstd::prelude::*;

use crate::text::{chars_of, push_chars};

verus! {

pub const ST_MODE_TYPE_FIFO: u32 = 0o0010000;

pub const ST_MODE_TYPE_CHR: u32 = 0o0020000;

pub const ST_MODE_TYPE_DIR: u32 = 0o0040000;

pub const ST_MODE_TYPE_BLK: u32 = 0o0060000;

pub const ST_MODE_TYPE_REG: u32 = 0o0100000;

pub const ST_MODE_TYPE_LNK: u32 = 0o0120000;

pub const ST_MODE_TYPE_SOCK: u32 = 0o0140000;

/// The file-type bits of `st_mode`.
pub const ST_MODE_TYPE_MASK: u32 = 0o0170000;

/// Mode given to a file that had none: a regular file, `rw-r--r--`.
pub const DEFAULT_MODE: u32 = 0o0100644;

/// The file type encoded in the top bits of `st_mode`.
#[derive(Debug, Clone, Copy, PartialEq, Eq, Structural)]
pub enum StModeType {
    /// named pipe (fifo)
    FIFO,
    /// character special
    CHR,
    /// directory
    DIR,
    /// block special
    BLK,
    /// regular
    REG,
    /// symbolic link
    LNK,
    /// socket
    SOCK,
    UNKNOWN,
}

/// The type whose bits `st_mode & ST_MODE_TYPE_MASK` hold.
pub open spec fn mode_type(st_mode: u32) -> StModeType {
    let t = st_mode & 0o0170000u32;
    if t == 0o0010000u32 {
        StModeType::FIFO
    } else if t == 0o0020000u32 {
        StModeType::CHR
    } else if t == 0o0040000u32 {
        StModeType::DIR
    } else if t == 0o0060000u32 {
        StModeType::BLK
    } else if t == 0o0100000u32 {
        StModeType::REG
    } else if t == 0o0120000u32 {
        StModeType::LNK
    } else if t == 0o0140000u32 {
        StModeType::SOCK
    } else {
        StModeType::UNKNOWN
    }
}

/// Type bits of each type.
pub open spec fn type_bits(t: StModeType) -> u32 {
    match t {
        StModeType::FIFO => 0o0010000,
        StModeType::CHR => 0o0020000,
        StModeType::DIR => 0o0040000,
        StModeType::BLK => 0o0060000,
        StModeType::REG => 0o0100000,
        StModeType::LNK => 0o0120000,
        StModeType::SOCK => 0o0140000,
        StModeType::UNKNOWN => 0o0170000,
    }
}

/// Name and `ls -l` letter of each type.
pub open spec fn mode_type_name(t: StModeType) -> (Seq<char>, char) {
    match t {
        StModeType::FIFO => ("FIFO"@, 'p'),
        StModeType::CHR => ("CHR"@, 'c'),
        StModeType::BLK => ("BLK"@, 'b'),
        StModeType::SOCK => ("SOCKET"@, 's'),
        StModeType::LNK => ("SYMLINK"@, 'l'),
        StModeType::DIR => ("DIRECTORY"@, 'd'),
        StModeType::REG => ("FILE"@, '-'),
        StModeType::UNKNOWN => ("UNKNOWN"@, '?'),
    }
}

impl StModeType {
    /// A display name and the letter `ls -l` shows for the type.
    pub fn name(&self) -> (r: (&'static str, char))
        ensures
            (r.0@, r.1) == mode_type_name(*self),
    {
        match self {
            StModeType::FIFO => ("FIFO", 'p'),
            StModeType::CHR => ("CHR", 'c'),
            StModeType::BLK => ("BLK", 'b'),
            StModeType::SOCK => ("SOCKET", 's'),
            StModeType::LNK => ("SYMLINK", 'l'),
            StModeType::DIR => ("DIRECTORY", 'd'),
            StModeType::REG => ("FILE", '-'),
            StModeType::UNKNOWN => ("UNKNOWN", '?'),
        }
    }

    pub fn from_mode(st_mode: u32) -> (r: StModeType)
        ensures
            r == mode_type(st_mode),
    {
        let t = st_mode & ST_MODE_TYPE_MASK;
        if t == ST_MODE_TYPE_FIFO {
            StModeType::FIFO
        } else if t == ST_MODE_TYPE_CHR {
            StModeType::CHR
        } else if t == ST_MODE_TYPE_DIR {
            StModeType::DIR
        } else if t == ST_MODE_TYPE_BLK {
            StModeType::BLK
        } else if t == ST_MODE_TYPE_REG {
            StModeType::REG
        } else if t == ST_MODE_TYPE_LNK {
            StModeType::LNK
        } else if t == ST_MODE_TYPE_SOCK {
            StModeType::SOCK
        } else {
            StModeType::UNKNOWN
        }
    }

    /// The type bits of `st_mode` for this type.
    pub fn mode_bits(&self) -> (r: u32)
        ensures
            r == type_bits(*self),
    {
        match self {
            StModeType::FIFO => ST_MODE_TYPE_FIFO,
            StModeType::CHR => ST_MODE_TYPE_CHR,
            StModeType::DIR => ST_MODE_TYPE_DIR,
            StModeType::BLK => ST_MODE_TYPE_BLK,
            StModeType::REG => ST_MODE_TYPE_REG,
            StModeType::LNK => ST_MODE_TYPE_LNK,
            StModeType::SOCK => ST_MODE_TYPE_SOCK,
            StModeType::UNKNOWN => ST_MODE_TYPE_MASK,
        }
    }
}

/// `c` where `bit` is set in `mode`, `-` where not.
pub open spec fn perm_char(mode: u32, bit: u32, c: char) -> char {
    if mode & bit != 0 {
        c
    } else {
        '-'
    }
}

/// The execute position: `x` or `-`, or, where the special bit is set,
/// `lower` over a set execute bit and `upper` over a clear one.
pub open spec fn exec_char(mode: u32, x_bit: u32, special: u32, lower: char, upper: char) -> char {
    if mode & special != 0 {
        if mode & x_bit != 0 {
            lower
        } else {
            upper
        }
    } else {
        perm_char(mode, x_bit, 'x')
    }
}

/// The `ls -l` permission field of `mode`.
pub open spec fn lsperms_of(mode: u32) -> Seq<char> {
    seq![
        mode_type_name(mode_type(mode)).1,
        perm_char(mode, 0o400, 'r'),
        perm_char(mode, 0o200, 'w'),
        exec_char(mode, 0o100, 0o4000, 's', 'S'),
        perm_char(mode, 0o40, 'r'),
        perm_char(mode, 0o20, 'w'),
        exec_char(mode, 0o10, 0o2000, 's', 'S'),
        perm_char(mode, 0o4, 'r'),
        perm_char(mode, 0o2, 'w'),
        exec_char(mode, 0o1, 0o1000, 't', 'T'),
    ]
}

fn perm(mode: u32, bit: u32, c: char) -> (r: char)
    ensures
        r == perm_char(mode, bit, c),
{
    if mode & bit != 0 {
        c
    } else {
        '-'
    }
}

fn exec_perm(mode: u32, x_bit: u32, special: u32, lower: char, upper: char) -> (r: char)
    ensures
        r == exec_char(mode, x_bit, special, lower, upper),
{
    if mode & special != 0 {
        if mode & x_bit != 0 {
            lower
        } else {
            upper
        }
    } else {
        perm(mode, x_bit, 'x')
    }
}

/// Converts a mode into the permission field `ls -l` shows.
pub fn lsperms(mode: u32) -> (r: String)
    ensures
        r@ == lsperms_of(mode),
{
    let t = StModeType::from_mode(mode).name().1;
    let bits = [
        t,
        perm(mode, 0o400, 'r'),
        perm(mode, 0o200, 'w'),
        exec_perm(mode, 0o100, 0o4000, 's', 'S'),
        perm(mode, 0o40, 'r'),
        perm(mode, 0o20, 'w'),
        exec_perm(mode, 0o10, 0o2000, 's', 'S'),
        perm(mode, 0o4, 'r'),
        perm(mode, 0o2, 'w'),
        exec_perm(mode, 0o1, 0o1000, 't', 'T'),
    ];
    let mut s = String::new();
    push_chars(&mut s, bits.as_slice());
    assert(s@ =~= lsperms_of(mode));
    s
}

/// The bit that `who` (`u`, `g` or `o`) and `what` (`r`, `w`, `x`, or `s`
/// for `u` and `g`, `t` for `o`) name; 0 for any other pair.
pub open spec fn perm_mask(who: char, what: char) -> u32 {
    if who == 'u' && what == 'r' {
        0o400
    } else if who == 'u' && what == 'w' {
        0o200
    } else if who == 'u' && what == 'x' {
        0o100
    } else if who == 'g' && what == 'r' {
        0o40
    } else if who == 'g' && what == 'w' {
        0o20
    } else if who == 'g' && what == 'x' {
        0o10
    } else if who == 'o' && what == 'r' {
        0o4
    } else if who == 'o' && what == 'w' {
        0o2
    } else if who == 'o' && what == 'x' {
        0o1
    } else if who == 'u' && what == 's' {
        0o4000
    } else if who == 'g' && what == 's' {
        0o2000
    } else if who == 'o' && what == 't' {
        0o1000
    } else {
        0
    }
}

/// `mode` with `mask` added (`+`) or taken away (`-`); any other action
/// leaves it.
pub open spec fn apply_mask(mode: u32, act: char, mask: u32) -> u32 {
    if act == '+' {
        mode | mask
    } else if act == '-' {
        mode & !mask
    } else {
        mode
    }
}

/// One `chmod` change: `who` of `u`, `g`, `o` or `a` (all three in turn).
pub open spec fn chmod_bit_of(mode: u32, who: char, act: char, what: char) -> u32 {
    if who == 'a' {
        apply_mask(
            apply_mask(apply_mask(mode, act, perm_mask('u', what)), act, perm_mask('g', what)),
            act,
            perm_mask('o', what),
        )
    } else {
        apply_mask(mode, act, perm_mask(who, what))
    }
}

fn mask_of(who: char, what: char) -> (r: u32)
    ensures
        r == perm_mask(who, what),
{
    if who == 'u' && what == 'r' {
        S_IRUSR
    } else if who == 'u' && what == 'w' {
        S_IWUSR
    } else if who == 'u' && what == 'x' {
        S_IXUSR
    } else if who == 'g' && what == 'r' {
        S_IRGRP
    } else if who == 'g' && what == 'w' {
        S_IWGRP
    } else if who == 'g' && what == 'x' {
        S_IXGRP
    } else if who == 'o' && what == 'r' {
        S_IROTH
    } else if who == 'o' && what == 'w' {
        S_IWOTH
    } else if who == 'o' && what == 'x' {
        S_IXOTH
    } else if who == 'u' && what == 's' {
        S_ISUID
    } else if who == 'g' && what == 's' {
        S_ISGID
    } else if who == 'o' && what == 't' {
        S_ISTXT
    } else {
        0
    }
}

fn apply(mode: u32, act: char, mask: u32) -> (r: u32)
    ensures
        r == apply_mask(mode, act, mask),
{
    if act == '+' {
        mode | mask
    } else if act == '-' {
        mode & !mask
    } else {
        mode
    }
}

/// Applies one `chmod` change to `mode`.
pub fn chmod_bit(mode: u32, who: char, act: char, what: char) -> (r: u32)
    ensures
        r == chmod_bit_of(mode, who, act, what),
{
    if who == 'a' {
        let m = apply(mode, act, mask_of('u', what));
        let m = apply(m, act, mask_of('g', what));
        apply(m, act, mask_of('o', what))
    } else {
        apply(mode, act, mask_of(who, what))
    }
}

/// set user id on execution
pub const S_ISUID: u32 = 0o0004000;

/// set group id on execution
pub const S_ISGID: u32 = 0o0002000;

/// sticky bit
pub const S_ISTXT: u32 = 0o0001000;

pub const S_IRUSR: u32 = 0o0000400;

pub const S_IWUSR: u32 = 0o0000200;

pub const S_IXUSR: u32 = 0o0000100;

pub const S_IRGRP: u32 = 0o0000040;

pub const S_IWGRP: u32 = 0o0000020;

pub const S_IXGRP: u32 = 0o0000010;

pub const S_IROTH: u32 = 0o0000004;

pub const S_IWOTH: u32 = 0o0000002;

pub const S_IXOTH: u32 = 0o0000001;

/// A user of `/etc/passwd`: `name:x:uid:...`.
#[derive(Debug)]
pub struct User {
    pub name: String,
    pub uid: u32,
}

/// A group of `/etc/group`: `name:x:gid:...`.
#[derive(Debug)]
pub struct Group {
    pub name: String,
    pub gid: u32,
}

/// The pieces of `s` between the separators `sep`, as `str::split` gives
/// them: one more piece than there are separators.
pub open spec fn split_on(s: Seq<char>, sep: char) -> Seq<Seq<char>>
    decreases s.len(),
{
    if s.len() == 0 {
        seq![seq![]]
    } else {
        let init = split_on(s.drop_last(), sep);
        if s.last() == sep {
            init.push(seq![])
        } else {
            init.update(init.len() - 1, init.last().push(s.last()))
        }
    }
}

proof fn lemma_split_on_nonempty(s: Seq<char>, sep: char)
    ensures
        split_on(s, sep).len() >= 1,
    decreases s.len(),
{
    if s.len() > 0 {
        lemma_split_on_nonempty(s.drop_last(), sep);
    }
}

/// White space as `char::is_whitespace` has it (Unicode `White_Space`).
pub open spec fn is_ws(c: char) -> bool {
    let u = c as u32;
    (0x9 <= u <= 0xd) || u == 0x20 || u == 0x85 || u == 0xa0 || u == 0x1680 || (0x2000 <= u
        <= 0x200a) || u == 0x2028 || u == 0x2029 || u == 0x202f || u == 0x205f || u == 0x3000
}

pub open spec fn trim_start(s: Seq<char>) -> Seq<char>
    decreases s.len(),
{
    if s.len() > 0 && is_ws(s[0]) {
        trim_start(s.drop_first())
    } else {
        s
    }
}

pub open spec fn trim_end(s: Seq<char>) -> Seq<char>
    decreases s.len(),
{
    if s.len() > 0 && is_ws(s.last()) {
        trim_end(s.drop_last())
    } else {
        s
    }
}

/// `s` without leading and trailing white space.
pub open spec fn trim(s: Seq<char>) -> Seq<char> {
    trim_end(trim_start(s))
}

/// The value of a string of decimal (`radix` 10) or octal (8) digits.
pub open spec fn digits_value(d: Seq<char>, radix: int) -> int
    decreases d.len(),
{
    if d.len() == 0 {
        0
    } else {
        digits_value(d.drop_last(), radix) * radix + ((d.last() as u32) - 48)
    }
}

pub open spec fn is_digit(c: char, radix: int) -> bool {
    48 <= (c as u32) && (c as u32) < 48 + radix
}

/// A `u32` as `u32::from_str_radix` reads it: an optional `+`, then at least
/// one digit, the value fitting 32 bits.
pub open spec fn parse_u32(s: Seq<char>, radix: int) -> Option<u32> {
    let d = unsigned_digits(s);
    if d.len() == 0 || !all_digits(d, radix) || digits_value(d, radix) > 0xffff_ffff {
        None
    } else {
        Some(digits_value(d, radix) as u32)
    }
}

/// `s` without a leading `+`.
pub open spec fn unsigned_digits(s: Seq<char>) -> Seq<char> {
    if s.len() > 0 && s[0] == '+' {
        s.drop_first()
    } else {
        s
    }
}

pub open spec fn all_digits(d: Seq<char>, radix: int) -> bool {
    forall|i: int| 0 <= i < d.len() ==> is_digit(#[trigger] d[i], radix)
}

proof fn lemma_digits_nonneg(d: Seq<char>, radix: int)
    requires
        radix >= 2,
        forall|j: int| 0 <= j < d.len() ==> is_digit(#[trigger] d[j], radix),
    ensures
        0 <= digits_value(d, radix),
    decreases d.len(),
{
    if d.len() > 0 {
        assert(is_digit(d[d.len() - 1], radix));
        lemma_digits_nonneg(d.drop_last(), radix);
        let v = digits_value(d.drop_last(), radix);
        assert(v * radix >= 0) by (nonlinear_arith)
            requires
                v >= 0,
                radix >= 2,
        ;
    }
}

proof fn lemma_digits_value_grows(d: Seq<char>, radix: int, i: int)
    requires
        0 <= i <= d.len(),
        radix >= 2,
        forall|j: int| 0 <= j < d.len() ==> is_digit(#[trigger] d[j], radix),
    ensures
        digits_value(d.take(i), radix) <= digits_value(d, radix),
    decreases d.len() - i,
{
    if i < d.len() {
        lemma_digits_value_grows(d, radix, i + 1);
        assert(d.take(i + 1).drop_last() =~= d.take(i));
        assert(is_digit(d[i], radix));
        lemma_digits_nonneg(d.take(i), radix);
        let v = digits_value(d.take(i), radix);
        assert(v * radix >= v) by (nonlinear_arith)
            requires
                v >= 0,
                radix >= 2,
        ;
    } else {
        assert(d.take(i) =~= d);
    }
}

/// Reads a `u32` the way `u32::from_str_radix` does.
#[verifier::loop_isolation(false)]
fn parse_u32_exec(s: &[char], radix: u32) -> (r: Option<u32>)
    requires
        radix == 8 || radix == 10,
    ensures
        r == parse_u32(s@, radix as int),
{
    let start: usize = if s.len() > 0 && s[0] == '+' {
        1
    } else {
        0
    };
    let ghost d = unsigned_digits(s@);
    assert(d =~= s@.subrange(start as int, s@.len() as int));
    if s.len() == start {
        return None;
    }
    let mut v: u64 = 0;
    let mut i: usize = start;
    assert(d.take(0) =~= seq![]);
    while i < s.len()
        invariant
            start <= i <= s@.len(),
            d == s@.subrange(start as int, s@.len() as int),
            radix == 8 || radix == 10,
            v == digits_value(d.take(i - start), radix as int),
            v <= 0xffff_ffff,
            forall|j: int| 0 <= j < i - start ==> is_digit(#[trigger] d[j], radix as int),
        decreases s@.len() - i,
    {
        let c = s[i];
        assert(d[i - start] == c);
        assert(d.take(i - start + 1).drop_last() =~= d.take(i - start));
        let u = c as u32;
        if !(u >= 48 && u < 48 + radix) {
            assert(!is_digit(d[i - start], radix as int));
            return None;
        }
        assert(v * (radix as u64) <= 0xffff_ffff * 10) by (nonlinear_arith)
            requires
                v <= 0xffff_ffff,
                radix <= 10,
        ;
        v = v * (radix as u64) + (u - 48) as u64;
        if v > 0xffff_ffff {
            proof {
                if all_digits(d, radix as int) {
                    lemma_digits_value_grows(d, radix as int, i - start + 1);
                }
            }
            return None;
        }
        i = i + 1;
    }
    assert(d.take(i - start) =~= d);
    Some(v as u32)
}

/// Whether `c` is white space.
fn is_ws_exec(c: char) -> (r: bool)
    ensures
        r == is_ws(c),
{
    let u = c as u32;
    (0x9 <= u && u <= 0xd) || u == 0x20 || u == 0x85 || u == 0xa0 || u == 0x1680 || (0x2000 <= u
        && u <= 0x200a) || u == 0x2028 || u == 0x2029 || u == 0x202f || u == 0x205f || u == 0x3000
}

proof fn lemma_trim_start_skip(s: Seq<char>, i: int)
    requires
        0 <= i <= s.len(),
        forall|j: int| 0 <= j < i ==> is_ws(#[trigger] s[j]),
    ensures
        trim_start(s) == trim_start(s.subrange(i, s.len() as int)),
    decreases i,
{
    if i > 0 {
        assert(s.drop_first().subrange(i - 1, s.drop_first().len() as int) =~= s.subrange(
            i,
            s.len() as int,
        ));
        assert forall|j: int| 0 <= j < i - 1 implies is_ws(#[trigger] s.drop_first()[j]) by {
            assert(s.drop_first()[j] == s[j + 1]);
        }
        lemma_trim_start_skip(s.drop_first(), i - 1);
    } else {
        assert(s.subrange(0, s.len() as int) =~= s);
    }
}

proof fn lemma_trim_end_skip(s: Seq<char>, k: int)
    requires
        0 <= k <= s.len(),
        forall|j: int| k <= j < s.len() ==> is_ws(#[trigger] s[j]),
    ensures
        trim_end(s) == trim_end(s.subrange(0, k)),
    decreases s.len() - k,
{
    if k < s.len() {
        assert(is_ws(s.last()));
        assert(s.drop_last().subrange(0, k) =~= s.subrange(0, k));
        lemma_trim_end_skip(s.drop_last(), k);
    } else {
        assert(s.subrange(0, k) =~= s);
    }
}

/// `s` without leading and trailing white space.
fn trim_exec(s: &[char]) -> (r: Vec<char>)
    ensures
        r@ == trim(s@),
{
    let mut i: usize = 0;
    while i < s.len() && is_ws_exec(s[i])
        invariant
            i <= s@.len(),
            forall|j: int| 0 <= j < i ==> is_ws(#[trigger] s@[j]),
        decreases s@.len() - i,
    {
        i = i + 1;
    }
    proof {
        lemma_trim_start_skip(s@, i as int);
    }
    let ghost t = s@.subrange(i as int, s@.len() as int);
    assert(i < s@.len() ==> !is_ws(t[0]));
    let mut k: usize = s.len();
    while k > i && is_ws_exec(s[k - 1])
        invariant
            i <= k <= s@.len(),
            t == s@.subrange(i as int, s@.len() as int),
            forall|j: int| k - i <= j < t.len() ==> is_ws(#[trigger] t[j]),
        decreases k,
    {
        assert(t[k - 1 - i] == s@[k - 1]);
        k = k - 1;
    }
    proof {
        lemma_trim_end_skip(t, k - i);
        assert(t.subrange(0, k - i) =~= s@.subrange(i as int, k as int));
    }
    let mut r: Vec<char> = Vec::new();
    let mut j: usize = i;
    while j < k
        invariant
            i <= j <= k <= s@.len(),
            r@ == s@.subrange(i as int, j as int),
        decreases k - j,
    {
        r.push(s[j]);
        j = j + 1;
        assert(r@ =~= s@.subrange(i as int, j as int));
    }
    r
}

pub open spec fn is_who(c: char) -> bool {
    c == 'u' || c == 'g' || c == 'o' || c == 'a'
}

pub open spec fn is_what(c: char) -> bool {
    c == 'r' || c == 'w' || c == 'x' || c == 's' || c == 't'
}

/// `p` without a leading `who` letter.
pub open spec fn after_who(p: Seq<char>) -> Seq<char> {
    if p.len() > 0 && is_who(p[0]) {
        p.drop_first()
    } else {
        p
    }
}

/// Every character after the first is a `what` letter.
pub open spec fn all_whats(rest: Seq<char>) -> bool {
    forall|i: int| 1 <= i < rest.len() ==> is_what(#[trigger] rest[i])
}

/// Applies `what`s in order, each as one change by `who`.
pub open spec fn chmod_whats(mode: u32, who: char, act: char, whats: Seq<char>) -> u32
    decreases whats.len(),
{
    if whats.len() == 0 {
        mode
    } else {
        chmod_bit_of(chmod_whats(mode, who, act, whats.drop_last()), who, act, whats.last())
    }
}

/// One symbolic change, `[ugoa]?[+-][rwxst]+`: `None` where the text is
/// not of that form, or names no one and is not `+t` or `-t` (which mean
/// the sticky bit).
pub open spec fn chmod_part_of(mode: u32, p: Seq<char>) -> Option<u32> {
    let has_who = p.len() > 0 && is_who(p[0]);
    let rest = after_who(p);
    if rest.len() < 2 || !(rest[0] == '+' || rest[0] == '-') || !all_whats(rest) {
        None
    } else if !has_who {
        if rest.len() == 2 && rest[1] == 't' {
            Some(chmod_bit_of(mode, 'o', rest[0], 't'))
        } else {
            None
        }
    } else {
        Some(chmod_whats(mode, p[0], rest[0], rest.drop_first()))
    }
}

/// Applies the comma-separated changes in order, each trimmed.
pub open spec fn chmod_parts(mode: u32, parts: Seq<Seq<char>>) -> Option<u32>
    decreases parts.len(),
{
    if parts.len() == 0 {
        Some(mode)
    } else {
        match chmod_parts(mode, parts.drop_last()) {
            Some(m) => chmod_part_of(m, trim(parts.last())),
            None => None,
        }
    }
}

/// The mode `chmod` gives: an octal number of at most four digits keeps the
/// file type and sets the rest; otherwise comma-separated symbolic changes.
pub open spec fn chmod_all_of(mode: u32, s: Seq<char>) -> Option<u32> {
    match parse_u32(s, 8) {
        Some(n) => if s.len() <= 4 {
            Some((mode & 0o170000u32) | (n & !0o170000u32))
        } else {
            None
        },
        None => chmod_parts(mode, split_on(s, ',')),
    }
}

#[verifier::loop_isolation(false)]
fn chmod_part_chars(mode: u32, p: &[char]) -> (r: Option<u32>)
    ensures
        r == chmod_part_of(mode, p@),
{
    let has_who = p.len() > 0 && (p[0] == 'u' || p[0] == 'g' || p[0] == 'o' || p[0] == 'a');
    let start: usize = if has_who {
        1
    } else {
        0
    };
    let ghost rest = after_who(p@);
    assert(rest =~= p@.subrange(start as int, p@.len() as int));
    if p.len() - start < 2 {
        return None;
    }
    let act = p[start];
    assert(rest[0] == act);
    if !(act == '+' || act == '-') {
        return None;
    }
    let mut i: usize = start + 1;
    while i < p.len()
        invariant
            start + 1 <= i <= p@.len(),
            rest == p@.subrange(start as int, p@.len() as int),
            has_who == (p@.len() > 0 && is_who(p@[0])),
            start == (if has_who {
                1usize
            } else {
                0usize
            }),
            rest == after_who(p@),
            rest.len() >= 2,
            rest[0] == act,
            act == '+' || act == '-',
            forall|j: int| 1 <= j < i - start ==> is_what(#[trigger] rest[j]),
        decreases p@.len() - i,
    {
        let c = p[i];
        assert(rest[i - start] == c);
        if !(c == 'r' || c == 'w' || c == 'x' || c == 's' || c == 't') {
            assert(!is_what(rest[i - start]));
            return None;
        }
        i = i + 1;
    }
    if !has_who {
        if p.len() - start == 2 && p[start + 1] == 't' {
            assert(rest[1] == p@[start + 1]);
            return Some(chmod_bit(mode, 'o', act, 't'));
        }
        assert(rest.len() == 2 ==> rest[1] == p@[start + 1]);
        return None;
    }
    let who = p[0];
    let ghost whats = rest.drop_first();
    let mut m = mode;
    let mut k: usize = start + 1;
    assert(whats.take(0) =~= seq![]);
    while k < p.len()
        invariant
            start + 1 <= k <= p@.len(),
            start == 1,
            whats == p@.subrange(2, p@.len() as int),
            m == chmod_whats(mode, who, act, whats.take(k - 2)),
        decreases p@.len() - k,
    {
        assert(whats.take(k - 1).drop_last() =~= whats.take(k - 2));
        assert(whats[k - 2] == p@[k as int]);
        m = chmod_bit(m, who, act, p[k]);
        k = k + 1;
    }
    assert(whats.take(k - 2) =~= whats);
    assert(whats =~= rest.drop_first());
    Some(m)
}

/// Applies one symbolic change (`u+x`, `go-w`, `+t`, ...).
pub fn chmod_part(mode: u32, mode_str: &str) -> (r: Result<u32, ()>)
    ensures
        r is Ok <==> chmod_part_of(mode, mode_str@) is Some,
        r matches Ok(m) ==> chmod_part_of(mode, mode_str@) == Some(m),
{
    let p = chars_of(mode_str);
    match chmod_part_chars(mode, p.as_slice()) {
        Some(m) => Ok(m),
        None => Err(()),
    }
}

/// Changes `mode` as `chmod` would: `0755` (at most four octal digits; the
/// file type is kept) or `u+x,g-w` (symbolic changes, in order).
pub fn chmod_all(mode: u32, mode_strs: &str) -> (r: Result<u32, ()>)
    ensures
        r is Ok <==> chmod_all_of(mode, mode_strs@) is Some,
        r matches Ok(m) ==> chmod_all_of(mode, mode_strs@) == Some(m),
{
    let s = chars_of(mode_strs);
    if let Some(newmode) = parse_u32_exec(s.as_slice(), 8) {
        if s.len() <= 4 {
            return Ok((mode & ST_MODE_TYPE_MASK) | (newmode & !ST_MODE_TYPE_MASK));
        } else {
            return Err(());
        }
    }
    let ghost mut done: Seq<Seq<char>> = seq![];
    let mut cur: Vec<char> = Vec::new();
    let mut m = mode;
    let mut i: usize = 0;
    assert(s@.take(0) =~= seq![]);
    assert(split_on(seq![], ',') == seq![Seq::<char>::empty()]);
    assert(done.push(cur@) =~= seq![Seq::<char>::empty()]);
    while i < s.len()
        invariant
            i <= s@.len(),
            s@ == mode_strs@,
            parse_u32(s@, 8) is None,
            split_on(s@.take(i as int), ',') == done.push(cur@),
            chmod_parts(mode, done) == Some(m),
        decreases s@.len() - i,
    {
        let c = s[i];
        assert(s@.take(i + 1).drop_last() =~= s@.take(i as int));
        assert(s@.take(i + 1).last() == c);
        if c == ',' {
            let t = trim_exec(cur.as_slice());
            match chmod_part_chars(m, t.as_slice()) {
                Some(m2) => {
                    proof {
                        assert(done.push(cur@).drop_last() =~= done);
                    }
                    m = m2;
                    proof {
                        done = done.push(cur@);
                    }
                    cur = Vec::new();
                },
                None => {
                    proof {
                        let pre = done.push(cur@);
                        assert(split_on(s@.take(i + 1), ',') == pre.push(Seq::<char>::empty()));
                        lemma_split_prefix(s@, ',', i + 1);
                        assert forall|j: int| 0 <= j < pre.len() implies split_on(s@, ',')[j]
                            == pre[j] by {
                            assert(split_on(s@.take(i + 1), ',')[j] == pre[j]);
                        }
                        assert(pre.drop_last() =~= done);
                        lemma_parts_fail(mode, split_on(s@, ','), pre);
                    }
                    return Err(());
                },
            }
        } else {
            let ghost before = cur@;
            cur.push(c);
            assert(done.push(before).update(done.len() as int, before.push(c)) =~= done.push(cur@));
            assert(split_on(s@.take(i + 1), ',') == done.push(cur@));
        }
        i = i + 1;
    }
    assert(s@.take(i as int) =~= s@);
    let t = trim_exec(cur.as_slice());
    assert(done.push(cur@).drop_last() =~= done);
    match chmod_part_chars(m, t.as_slice()) {
        Some(m2) => Ok(m2),
        None => Err(()),
    }
}

/// Once a change fails, the whole list fails.
proof fn lemma_parts_fail(mode: u32, all: Seq<Seq<char>>, pre: Seq<Seq<char>>)
    requires
        pre.len() <= all.len(),
        forall|j: int| 0 <= j < pre.len() ==> all[j] == pre[j],
        chmod_parts(mode, pre) is None,
    ensures
        chmod_parts(mode, all) is None,
    decreases all.len() - pre.len(),
{
    if pre.len() < all.len() {
        let next = all.take(pre.len() + 1 as int);
        assert(next.drop_last() =~= pre);
        lemma_parts_fail(mode, all, next);
    } else {
        assert(all =~= pre);
    }
}

/// The pieces of a prefix, all but its last, are pieces of the whole text.
proof fn lemma_split_prefix(s: Seq<char>, sep: char, k: int)
    requires
        0 <= k <= s.len(),
    ensures
        split_on(s.take(k), sep).len() <= split_on(s, sep).len(),
        forall|j: int|
            0 <= j < split_on(s.take(k), sep).len() - 1 ==> split_on(s, sep)[j] == #[trigger] split_on(
                s.take(k),
                sep,
            )[j],
    decreases s.len() - k,
{
    if k < s.len() {
        lemma_split_prefix(s, sep, k + 1);
        assert(s.take(k + 1).drop_last() =~= s.take(k));
        assert(s.take(k + 1).last() == s[k]);
        lemma_split_on_nonempty(s.take(k), sep);
        let a = split_on(s.take(k), sep);
        let b = split_on(s.take(k + 1), sep);
        assert(b.len() >= a.len());
        assert forall|j: int| 0 <= j < a.len() - 1 implies split_on(s, sep)[j] == #[trigger] a[j] by {
            assert(b[j] == a[j]);
            assert(j < b.len() - 1);
        }
    } else {
        assert(s.take(k) =~= s);
    }
}

/// A line of `/etc/passwd` or `/etc/group`: the name (first field) and the
/// number (third field).
pub open spec fn line_of(line: Seq<char>) -> Option<(Seq<char>, u32)> {
    let fields = split_on(line, ':');
    if fields.len() < 3 {
        None
    } else {
        match parse_u32(fields[2], 10) {
            Some(n) => Some((fields[0], n)),
            None => None,
        }
    }
}

/// Reads the name and number of a line of `/etc/passwd` (`name:x:uid:...`)
/// or `/etc/group` (`name:x:gid:...`).
pub fn line_parse(line: &str) -> (r: Result<(String, u32), ()>)
    ensures
        r is Ok <==> line_of(line@) is Some,
        r matches Ok((name, n)) ==> line_of(line@) == Some((name@, n)),
{
    let s = chars_of(line);
    let ghost mut done: Seq<Seq<char>> = seq![];
    let mut cur: Vec<char> = Vec::new();
    let mut count: usize = 0;
    let mut first: Vec<char> = Vec::new();
    let mut third: Vec<char> = Vec::new();
    let mut i: usize = 0;
    assert(s@.take(0) =~= seq![]);
    assert(done.push(cur@) =~= seq![Seq::<char>::empty()]);
    while i < s.len()
        invariant
            i <= s@.len(),
            s@ == line@,
            split_on(s@.take(i as int), ':') == done.push(cur@),
            count == done.len(),
            count >= 1 ==> first@ == done[0],
            count >= 3 ==> third@ == done[2],
            count <= i,
        decreases s@.len() - i,
    {
        let c = s[i];
        assert(s@.take(i + 1).drop_last() =~= s@.take(i as int));
        assert(s@.take(i + 1).last() == c);
        if c == ':' {
            if count == 0 {
                first = cur;
            } else if count == 2 {
                third = cur;
            }
            proof {
                done = done.push(cur@);
            }
            cur = Vec::new();
            count = count + 1;
        } else {
            let ghost before = cur@;
            cur.push(c);
            assert(done.push(before).update(done.len() as int, before.push(c)) =~= done.push(cur@));
        }
        i = i + 1;
    }
    assert(s@.take(i as int) =~= s@);
    let ghost fields = done.push(cur@);
    if count < 2 {
        return Err(());
    }
    let name_chars = first;
    let num_chars = if count >= 3 {
        third
    } else {
        cur
    };
    assert(name_chars@ == fields[0]);
    assert(num_chars@ == fields[2]);
    match parse_u32_exec(num_chars.as_slice(), 10) {
        Some(n) => {
            let mut name = String::new();
            push_chars(&mut name, name_chars.as_slice());
            assert(name@ =~= fields[0]);
            Ok((name, n))
        },
        None => Err(()),
    }
}

} // verus!
