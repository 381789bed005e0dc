//! Classification of backup file names, and their grouping into backup sets
//! and chains.

use vstd::prelude::*;

verus! {

/// Kind of backup file.
#[derive(Clone, Copy, PartialEq, Eq, Structural, Debug)]
pub enum FileType {
    Full,
}

/// Specification-level view of a classified file name.
#[verifier::ext_equal]
pub struct FileNameV {
    pub file_type: FileType,
    pub manifest: bool,
    pub volume_number: i32,
    pub time: Seq<char>,
    pub compressed: bool,
    pub encrypted: bool,
    pub partial: bool,
}

/// A classified backup file name.
#[derive(Debug)]
pub struct FileName {
    pub file_type: FileType,
    pub manifest: bool,
    pub volume_number: i32,
    pub time: String,
    pub compressed: bool,
    pub encrypted: bool,
    pub partial: bool,
}

impl View for FileName {
    type V = FileNameV;

    open spec fn view(&self) -> FileNameV {
        FileNameV {
            file_type: self.file_type,
            manifest: self.manifest,
            volume_number: self.volume_number,
            time: self.time@,
            compressed: self.compressed,
            encrypted: self.encrypted,
            partial: self.partial,
        }
    }
}

impl FileName {
    /// A default file name record: a full data volume, number 0, empty time.
    pub fn new() -> (r: FileName)
        ensures
            r@ == (FileNameV {
                file_type: FileType::Full,
                manifest: false,
                volume_number: 0,
                time: Seq::<char>::empty(),
                compressed: false,
                encrypted: false,
                partial: false,
            }),
    {
        let r = FileName {
            file_type: FileType::Full,
            manifest: false,
            volume_number: 0,
            time: String::new(),
            compressed: false,
            encrypted: false,
            partial: false,
        };
        proof {
            assert(r@ =~= FileNameV {
                file_type: FileType::Full,
                manifest: false,
                volume_number: 0,
                time: Seq::<char>::empty(),
                compressed: false,
                encrypted: false,
                partial: false,
            });
        }
        r
    }
}

impl PartialEq for FileName {
    fn eq(&self, other: &FileName) -> (r: bool) {
        self.file_type == other.file_type && self.manifest == other.manifest
            && self.volume_number == other.volume_number && self.time == other.time
            && self.compressed == other.compressed && self.encrypted == other.encrypted
            && self.partial == other.partial
    }
}

impl vstd::std_specs::cmp::PartialEqSpecImpl for FileName {
    open spec fn obeys_eq_spec() -> bool {
        true
    }

    open spec fn eq_spec(&self, other: &FileName) -> bool {
        self.file_type == other.file_type && self.manifest == other.manifest
            && self.volume_number == other.volume_number && self.time@ == other.time@
            && self.compressed == other.compressed && self.encrypted == other.encrypted
            && self.partial == other.partial
    }
}

impl Eq for FileName {

}

// ---------------------------------------------------------------------------
// The file name grammar, at the specification level
// ---------------------------------------------------------------------------

/// ASCII lowercasing of one character.
pub open spec fn lower_char(c: char) -> char {
    if 'A' <= c && c <= 'Z' {
        ((c as u32) + 32) as char
    } else {
        c
    }
}

/// The lowered view of a name.
#[verifier::opaque]
pub open spec fn spec_lower(s: Seq<char>) -> Seq<char> {
    s.map_values(|c: char| lower_char(c))
}

/// `duplicity-full.`, the prefix of every recognised name.
pub open spec fn tok_prefix() -> Seq<char> {
    seq!['d', 'u', 'p', 'l', 'i', 'c', 'i', 't', 'y', '-', 'f', 'u', 'l', 'l', '.']
}

pub open spec fn tok_vol() -> Seq<char> {
    seq!['.', 'v', 'o', 'l']
}

pub open spec fn tok_difftar() -> Seq<char> {
    seq!['.', 'd', 'i', 'f', 'f', 't', 'a', 'r']
}

pub open spec fn tok_manifest() -> Seq<char> {
    seq!['.', 'm', 'a', 'n', 'i', 'f', 'e', 's', 't']
}

pub open spec fn tok_part() -> Seq<char> {
    seq!['.', 'p', 'a', 'r', 't']
}

/// Whether `p` occurs in `s` at position `at`.
pub open spec fn spec_starts_with(s: Seq<char>, p: Seq<char>, at: int) -> bool {
    0 <= at && at + p.len() <= s.len() && s.subrange(at, at + p.len()) == p
}

/// Whether `s` ends with `suf`.
pub open spec fn spec_ends_with(s: Seq<char>, suf: Seq<char>) -> bool {
    s.len() >= suf.len() && s.subrange(s.len() - suf.len(), s.len() as int) == suf
}

/// No line feed occurs in `s[a..b)`; the timestamp may not cross one.
pub open spec fn no_newline(s: Seq<char>, a: int, b: int) -> bool {
    forall|k: int| a <= k < b ==> s[k] != '\n'
}

pub open spec fn is_digit(c: char) -> bool {
    '0' <= c && c <= '9'
}

/// First position at or after `at` that holds no decimal digit.
pub open spec fn digit_end(s: Seq<char>, at: int) -> int
    decreases s.len() - at,
{
    if at < 0 || at >= s.len() {
        at
    } else if !is_digit(s[at]) {
        at
    } else {
        digit_end(s, at + 1)
    }
}

/// The name may end, or continue with a further dotted extension, here.
pub open spec fn tail_ok(s: Seq<char>, q: int) -> bool {
    q == s.len() || (0 <= q < s.len() && s[q] == '.')
}

/// A `.part` marker at `q`, itself followed by an extension or the end.
pub open spec fn partial_at(s: Seq<char>, q: int) -> bool {
    spec_starts_with(s, tok_part(), q) && tail_ok(s, q + 5)
}

/// `.vol<digits>.difftar` at `t`, then `.part` or a further extension or
/// the end.
pub open spec fn vol_tail_at(s: Seq<char>, t: int) -> bool {
    &&& spec_starts_with(s, tok_vol(), t)
    &&& digit_end(s, t + 4) > t + 4
    &&& spec_starts_with(s, tok_difftar(), digit_end(s, t + 4))
    &&& (partial_at(s, digit_end(s, t + 4) + 8) || tail_ok(s, digit_end(s, t + 4) + 8))
}

/// A full-volume name whose timestamp ends at `t`.
pub open spec fn vol_group_at(s: Seq<char>, t: int) -> bool {
    15 <= t <= s.len() && no_newline(s, 15, t) && vol_tail_at(s, t)
}

/// `.manifest` at `t`, then `.part` or a further extension or the end.
pub open spec fn man_tail_at(s: Seq<char>, t: int) -> bool {
    spec_starts_with(s, tok_manifest(), t) && (partial_at(s, t + 9) || tail_ok(s, t + 9))
}

/// A full-manifest name whose timestamp ends at `t`.
pub open spec fn man_group_at(s: Seq<char>, t: int) -> bool {
    15 <= t <= s.len() && no_newline(s, 15, t) && man_tail_at(s, t)
}

/// The least `u >= t` at which a full-volume name matches.
pub open spec fn vol_t_from(s: Seq<char>, t: int) -> Option<int>
    decreases s.len() - t + 1,
{
    if t < 15 || t > s.len() {
        None
    } else if vol_group_at(s, t) {
        Some(t)
    } else if t == s.len() {
        None
    } else {
        vol_t_from(s, t + 1)
    }
}

/// The least `u >= t` at which a full-manifest name matches.
pub open spec fn man_t_from(s: Seq<char>, t: int) -> Option<int>
    decreases s.len() - t + 1,
{
    if t < 15 || t > s.len() {
        None
    } else if man_group_at(s, t) {
        Some(t)
    } else if t == s.len() {
        None
    } else {
        man_t_from(s, t + 1)
    }
}

/// The value of the decimal digits `s[a..b)`.
pub open spec fn char_digits_val(s: Seq<char>, a: int, b: int) -> int
    decreases b - a,
{
    if b <= a {
        0
    } else {
        char_digits_val(s, a, b - 1) * 10 + (s[b - 1] as u32 - 48)
    }
}

/// A name counts as compressed when it ends in `.gz` or `.z`.
pub open spec fn spec_ends_gz(s: Seq<char>) -> bool {
    spec_ends_with(s, seq!['.', 'g', 'z']) || spec_ends_with(s, seq!['.', 'z'])
}

/// A name counts as encrypted when it ends in `.gpg` or `.g`.
pub open spec fn spec_ends_gpg(s: Seq<char>) -> bool {
    spec_ends_with(s, seq!['.', 'g', 'p', 'g']) || spec_ends_with(s, seq!['.', 'g'])
}

/// Classification of a lowered name: the volume pattern is tried first with
/// the shortest timestamp, then the manifest pattern; the compressed and
/// encrypted marks come from the name's suffix alone.
#[verifier::opaque]
pub open spec fn spec_classify(low: Seq<char>) -> Option<FileNameV> {
    if !spec_starts_with(low, tok_prefix(), 0) {
        None
    } else {
        match vol_t_from(low, 15) {
            Some(t) => {
                let d = digit_end(low, t + 4);
                let num = char_digits_val(low, t + 4, d);
                if num <= i32::MAX {
                    Some(
                        FileNameV {
                            file_type: FileType::Full,
                            manifest: false,
                            volume_number: num as i32,
                            time: low.subrange(15, t),
                            compressed: spec_ends_gz(low),
                            encrypted: spec_ends_gpg(low),
                            partial: partial_at(low, d + 8),
                        },
                    )
                } else {
                    None
                }
            },
            None => match man_t_from(low, 15) {
                Some(t) => Some(
                    FileNameV {
                        file_type: FileType::Full,
                        manifest: true,
                        volume_number: 0,
                        time: low.subrange(15, t),
                        compressed: spec_ends_gz(low),
                        encrypted: spec_ends_gpg(low),
                        partial: partial_at(low, t + 9),
                    },
                ),
                None => None,
            },
        }
    }
}

// ---------------------------------------------------------------------------
// The exec classifier
// ---------------------------------------------------------------------------

/// Relies on str::to_ascii_lowercase: ASCII uppercase letters are mapped to
/// their lowercase form, every other character is kept as it is.
#[verifier::external_body]
fn ascii_lowercase(s: &str) -> (r: String)
    ensures
        r@ == spec_lower(s@),
{
    s.to_ascii_lowercase()
}

fn chars_vec(s: &str) -> (r: Vec<char>)
    ensures
        r@ == s@,
{
    let n = s.unicode_len();
    let mut r: Vec<char> = Vec::new();
    let mut i: usize = 0;
    while i < n
        invariant
            0 <= i <= n,
            n == s@.len(),
            r@ == s@.take(i as int),
        decreases n - i,
    {
        r.push(s.get_char(i));
        proof {
            assert(r@ =~= s@.take(i + 1));
        }
        i = i + 1;
    }
    proof {
        assert(r@ =~= s@);
    }
    r
}

fn has_prefix(cv: &Vec<char>) -> (r: bool)
    ensures
        r == spec_starts_with(cv@, tok_prefix(), 0),
{
    let r = cv.len() >= 15 && cv[0] == 'd' && cv[1] == 'u' && cv[2] == 'p' && cv[3] == 'l'
        && cv[4] == 'i' && cv[5] == 'c' && cv[6] == 'i' && cv[7] == 't' && cv[8] == 'y' && cv[9]
        == '-' && cv[10] == 'f' && cv[11] == 'u' && cv[12] == 'l' && cv[13] == 'l' && cv[14] == '.';
    proof {
        if r {
            assert(cv@.subrange(0, 15) =~= tok_prefix());
        } else if cv@.len() >= 15 {
            if cv@.subrange(0, 15) == tok_prefix() {
                assert(forall|k: int| 0 <= k < 15 ==> cv@[k] == #[trigger] tok_prefix()[k]);
            }
        }
    }
    r
}

fn tok_at_vol(cv: &Vec<char>, t: usize) -> (r: bool)
    requires
        t <= cv@.len(),
    ensures
        r == spec_starts_with(cv@, tok_vol(), t as int),
{
    let r = cv.len() - t >= 4 && cv[t] == '.' && cv[t + 1] == 'v' && cv[t + 2] == 'o' && cv[t + 3]
        == 'l';
    proof {
        if r {
            assert(cv@.subrange(t as int, t + 4) =~= tok_vol());
        } else if t + 4 <= cv@.len() {
            if cv@.subrange(t as int, t + 4) == tok_vol() {
                assert(forall|k: int| 0 <= k < 4 ==> cv@[t + k] == #[trigger] tok_vol()[k]);
            }
        }
    }
    r
}

fn tok_at_difftar(cv: &Vec<char>, t: usize) -> (r: bool)
    requires
        t <= cv@.len(),
    ensures
        r == spec_starts_with(cv@, tok_difftar(), t as int),
{
    let r = cv.len() - t >= 8 && cv[t] == '.' && cv[t + 1] == 'd' && cv[t + 2] == 'i' && cv[t + 3]
        == 'f' && cv[t + 4] == 'f' && cv[t + 5] == 't' && cv[t + 6] == 'a' && cv[t + 7] == 'r';
    proof {
        if r {
            assert(cv@.subrange(t as int, t + 8) =~= tok_difftar());
        } else if t + 8 <= cv@.len() {
            if cv@.subrange(t as int, t + 8) == tok_difftar() {
                assert(forall|k: int| 0 <= k < 8 ==> cv@[t + k] == #[trigger] tok_difftar()[k]);
            }
        }
    }
    r
}

fn tok_at_manifest(cv: &Vec<char>, t: usize) -> (r: bool)
    requires
        t <= cv@.len(),
    ensures
        r == spec_starts_with(cv@, tok_manifest(), t as int),
{
    let r = cv.len() - t >= 9 && cv[t] == '.' && cv[t + 1] == 'm' && cv[t + 2] == 'a' && cv[t + 3]
        == 'n' && cv[t + 4] == 'i' && cv[t + 5] == 'f' && cv[t + 6] == 'e' && cv[t + 7] == 's'
        && cv[t + 8] == 't';
    proof {
        if r {
            assert(cv@.subrange(t as int, t + 9) =~= tok_manifest());
        } else if t + 9 <= cv@.len() {
            if cv@.subrange(t as int, t + 9) == tok_manifest() {
                assert(forall|k: int| 0 <= k < 9 ==> cv@[t + k] == #[trigger] tok_manifest()[k]);
            }
        }
    }
    r
}

fn tok_at_part(cv: &Vec<char>, t: usize) -> (r: bool)
    requires
        t <= cv@.len(),
    ensures
        r == spec_starts_with(cv@, tok_part(), t as int),
{
    let r = cv.len() - t >= 5 && cv[t] == '.' && cv[t + 1] == 'p' && cv[t + 2] == 'a' && cv[t + 3]
        == 'r' && cv[t + 4] == 't';
    proof {
        if r {
            assert(cv@.subrange(t as int, t + 5) =~= tok_part());
        } else if t + 5 <= cv@.len() {
            if cv@.subrange(t as int, t + 5) == tok_part() {
                assert(forall|k: int| 0 <= k < 5 ==> cv@[t + k] == #[trigger] tok_part()[k]);
            }
        }
    }
    r
}

fn digit_end_exec(cv: &Vec<char>, at: usize) -> (r: usize)
    requires
        at <= cv@.len(),
    ensures
        r == digit_end(cv@, at as int),
        at <= r <= cv@.len(),
{
    let mut i = at;
    while i < cv.len() && cv[i] >= '0' && cv[i] <= '9'
        invariant
            at <= i <= cv@.len(),
            digit_end(cv@, at as int) == digit_end(cv@, i as int),
        decreases cv@.len() - i,
    {
        i = i + 1;
    }
    i
}

fn tail_ok_exec(cv: &Vec<char>, q: usize) -> (r: bool)
    requires
        q <= cv@.len(),
    ensures
        r == tail_ok(cv@, q as int),
{
    q == cv.len() || cv[q] == '.'
}

fn partial_exec(cv: &Vec<char>, q: usize) -> (r: bool)
    requires
        q <= cv@.len(),
    ensures
        r == partial_at(cv@, q as int),
{
    if cv.len() - q < 5 {
        proof {
            assert(tok_part().len() == 5);
        }
        return false;
    }
    if tok_at_part(cv, q) {
        tail_ok_exec(cv, q + 5)
    } else {
        false
    }
}

fn vol_tail_exec(cv: &Vec<char>, t: usize) -> (r: bool)
    requires
        t <= cv@.len(),
    ensures
        r == vol_tail_at(cv@, t as int),
{
    if cv.len() - t < 4 {
        proof {
            assert(tok_vol().len() == 4);
        }
        return false;
    }
    if !tok_at_vol(cv, t) {
        return false;
    }
    let d = digit_end_exec(cv, t + 4);
    if d == t + 4 {
        return false;
    }
    if cv.len() - d < 8 {
        proof {
            assert(tok_difftar().len() == 8);
        }
        return false;
    }
    if !tok_at_difftar(cv, d) {
        return false;
    }
    partial_exec(cv, d + 8) || tail_ok_exec(cv, d + 8)
}

fn man_tail_exec(cv: &Vec<char>, t: usize) -> (r: bool)
    requires
        t <= cv@.len(),
    ensures
        r == man_tail_at(cv@, t as int),
{
    if cv.len() - t < 9 {
        proof {
            assert(tok_manifest().len() == 9);
        }
        return false;
    }
    if !tok_at_manifest(cv, t) {
        return false;
    }
    partial_exec(cv, t + 9) || tail_ok_exec(cv, t + 9)
}

proof fn lemma_char_digits_nonneg(s: Seq<char>, a: int, b: int)
    requires
        forall|k: int| a <= k < b ==> is_digit(#[trigger] s[k]),
    ensures
        char_digits_val(s, a, b) >= 0,
    decreases b - a,
{
    if b > a {
        lemma_char_digits_nonneg(s, a, b - 1);
    }
}

proof fn lemma_char_digits_monotone(s: Seq<char>, a: int, j: int, b: int)
    requires
        forall|k: int| a <= k < b ==> is_digit(#[trigger] s[k]),
        a <= j <= b,
    ensures
        char_digits_val(s, a, j) <= char_digits_val(s, a, b),
    decreases b - j,
{
    if j < b {
        lemma_char_digits_monotone(s, a, j + 1, b);
        lemma_char_digits_nonneg(s, a, j);
        assert(char_digits_val(s, a, j) * 10 >= char_digits_val(s, a, j)) by (nonlinear_arith)
            requires char_digits_val(s, a, j) >= 0;
    }
}

fn parse_vol_num(cv: &Vec<char>, a: usize, b: usize) -> (r: Option<i32>)
    requires
        a <= b <= cv@.len(),
        forall|k: int| a <= k < b ==> is_digit(#[trigger] cv@[k]),
    ensures
        char_digits_val(cv@, a as int, b as int) <= i32::MAX ==> r == Some(
            char_digits_val(cv@, a as int, b as int) as i32,
        ),
        char_digits_val(cv@, a as int, b as int) > i32::MAX ==> r is None,
{
    let mut acc: i32 = 0;
    let mut i = a;
    while i < b
        invariant
            a <= i <= b <= cv@.len(),
            forall|k: int| a <= k < b ==> is_digit(#[trigger] cv@[k]),
            acc == char_digits_val(cv@, a as int, i as int),
            acc >= 0,
        decreases b - i,
    {
        let c = cv[i];
        let d = (c as u32) - 48;
        proof {
            assert(is_digit(cv@[i as int]));
            assert(d <= 9);
            lemma_char_digits_nonneg(cv@, a as int, i as int);
        }
        if acc > (i32::MAX - d as i32) / 10 {
            proof {
                assert(acc * 10 + d > i32::MAX) by (nonlinear_arith)
                    requires
                        acc > (i32::MAX - d as i32) / 10,
                        0 <= d <= 9,
                        acc >= 0,
                ;
                lemma_char_digits_monotone(cv@, a as int, i + 1, b as int);
            }
            return None;
        }
        acc = acc * 10 + d as i32;
        i = i + 1;
    }
    Some(acc)
}

fn ends_gz_exec(cv: &Vec<char>) -> (r: bool)
    ensures
        r == spec_ends_gz(cv@),
{
    let n = cv.len();
    let a = n >= 3 && cv[n - 3] == '.' && cv[n - 2] == 'g' && cv[n - 1] == 'z';
    let b = n >= 2 && cv[n - 2] == '.' && cv[n - 1] == 'z';
    proof {
        if a {
            assert(cv@.subrange(n - 3, n as int) =~= seq!['.', 'g', 'z']);
        } else if n >= 3 && cv@.subrange(n - 3, n as int) == seq!['.', 'g', 'z'] {
            assert(cv@[n - 3] == '.' && cv@[n - 2] == 'g' && cv@[n - 1] == 'z');
        }
        if b {
            assert(cv@.subrange(n - 2, n as int) =~= seq!['.', 'z']);
        } else if n >= 2 && cv@.subrange(n - 2, n as int) == seq!['.', 'z'] {
            assert(cv@[n - 2] == '.' && cv@[n - 1] == 'z');
        }
    }
    a || b
}

fn ends_gpg_exec(cv: &Vec<char>) -> (r: bool)
    ensures
        r == spec_ends_gpg(cv@),
{
    let n = cv.len();
    let a = n >= 4 && cv[n - 4] == '.' && cv[n - 3] == 'g' && cv[n - 2] == 'p' && cv[n - 1] == 'g';
    let b = n >= 2 && cv[n - 2] == '.' && cv[n - 1] == 'g';
    proof {
        if a {
            assert(cv@.subrange(n - 4, n as int) =~= seq!['.', 'g', 'p', 'g']);
        } else if n >= 4 && cv@.subrange(n - 4, n as int) == seq!['.', 'g', 'p', 'g'] {
            assert(cv@[n - 4] == '.' && cv@[n - 3] == 'g' && cv@[n - 2] == 'p' && cv@[n - 1]
                == 'g');
        }
        if b {
            assert(cv@.subrange(n - 2, n as int) =~= seq!['.', 'g']);
        } else if n >= 2 && cv@.subrange(n - 2, n as int) == seq!['.', 'g'] {
            assert(cv@[n - 2] == '.' && cv@[n - 1] == 'g');
        }
    }
    a || b
}

/// Parser of duplicity backup file names.
pub struct FileNameParser {}

impl FileNameParser {
    /// A new file name parser.
    pub fn new() -> (r: FileNameParser) {
        FileNameParser {  }
    }

    /// Classifies a bare file name; unrecognised names give nothing. The
    /// compressed and encrypted marks hold exactly of names whose lowered
    /// form ends in `.gz`/`.z` and `.gpg`/`.g`.
    #[verifier::loop_isolation(false)]
    pub fn parse(&self, filename: &str) -> (r: Option<FileName>)
        ensures
            ({
                let low = spec_lower(filename@);
                &&& (match r {
                    Some(f) => spec_classify(low) matches Some(fv) && fv == f@,
                    None => spec_classify(low) is None,
                })
                &&& (r matches Some(f) ==> f.compressed == spec_ends_gz(low) && f.encrypted
                    == spec_ends_gpg(low))
            }),
    {
        proof {
            reveal(spec_classify);
        }
        let low_s = ascii_lowercase(filename);
        let cv = chars_vec(low_s.as_str());
        let ghost low = cv@;
        let n = cv.len();
        if !has_prefix(&cv) {
            proof {
                reveal(spec_classify);
            }
            return None;
        }
        // volume pattern, shortest timestamp first
        let mut t: usize = 15;
        let mut nl = false;
        loop
            invariant
                15 <= t <= n,
                n == low.len(),
                cv@ == low,
                low_s@ == low,
                nl == !no_newline(low, 15, t as int),
                vol_t_from(low, 15) == vol_t_from(low, t as int),
            decreases n - t,
        {
            let hit = if nl {
                false
            } else {
                vol_tail_exec(&cv, t)
            };
            if hit {
                proof {
                    assert(vol_group_at(low, t as int));
                    assert(vol_t_from(low, t as int) == Some(t as int));
                }
                let d = digit_end_exec(&cv, t + 4);
                proof {
                    lemma_digit_run(low, t + 4, d as int);
                }
                let num = match parse_vol_num(&cv, t + 4, d) {
                    Some(v) => v,
                    None => {
                        proof {
                            reveal(spec_classify);
                        }
                        return None;
                    },
                };
                proof {
                    assert(tok_difftar().len() == 8);
                }
                let partial = partial_exec(&cv, d + 8);
                let time_str = low_s.as_str().substring_char(15, t);
                let time = String::from_str(time_str);
                let compressed = ends_gz_exec(&cv);
                let encrypted = ends_gpg_exec(&cv);
                let f = FileName {
                    file_type: FileType::Full,
                    manifest: false,
                    volume_number: num,
                    time,
                    compressed,
                    encrypted,
                    partial,
                };
                proof {
                    reveal(spec_classify);
                    assert(spec_classify(low) matches Some(fv) && fv =~= f@);
                }
                return Some(f);
            }
            proof {
                assert(!vol_group_at(low, t as int));
            }
            if t == n {
                proof {
                    assert(vol_t_from(low, t as int) is None);
                }
                break;
            }
            if cv[t] == '\n' {
                nl = true;
            }
            proof {
                assert(no_newline(low, 15, t + 1) == (no_newline(low, 15, t as int) && low[t as int]
                    != '\n'));
            }
            t = t + 1;
        }
        proof {
            reveal(spec_classify);
        }
        // manifest pattern
        let mut t: usize = 15;
        let mut nl = false;
        loop
            invariant
                15 <= t <= n,
                n == low.len(),
                cv@ == low,
                low_s@ == low,
                vol_t_from(low, 15) is None,
                nl == !no_newline(low, 15, t as int),
                man_t_from(low, 15) == man_t_from(low, t as int),
            decreases n - t,
        {
            let hit = if nl {
                false
            } else {
                man_tail_exec(&cv, t)
            };
            if hit {
                proof {
                    assert(man_group_at(low, t as int));
                    assert(man_t_from(low, t as int) == Some(t as int));
                }
                let partial = partial_exec(&cv, t + 9);
                let time_str = low_s.as_str().substring_char(15, t);
                let time = String::from_str(time_str);
                let compressed = ends_gz_exec(&cv);
                let encrypted = ends_gpg_exec(&cv);
                let f = FileName {
                    file_type: FileType::Full,
                    manifest: true,
                    volume_number: 0,
                    time,
                    compressed,
                    encrypted,
                    partial,
                };
                proof {
                    reveal(spec_classify);
                    assert(spec_classify(low) matches Some(fv) && fv =~= f@);
                }
                return Some(f);
            }
            proof {
                assert(!man_group_at(low, t as int));
            }
            if t == n {
                proof {
                    assert(man_t_from(low, t as int) is None);
                }
                break;
            }
            if cv[t] == '\n' {
                nl = true;
            }
            proof {
                assert(no_newline(low, 15, t + 1) == (no_newline(low, 15, t as int) && low[t as int]
                    != '\n'));
            }
            t = t + 1;
        }
        proof {
            reveal(spec_classify);
        }
        None
    }
}

proof fn lemma_digit_run(s: Seq<char>, a: int, d: int)
    requires
        0 <= a <= s.len(),
        d == digit_end(s, a),
    ensures
        a <= d <= s.len(),
        forall|k: int| a <= k < d ==> is_digit(#[trigger] s[k]),
    decreases s.len() - a,
{
    if a < s.len() && is_digit(s[a]) {
        lemma_digit_run(s, a + 1, d);
    }
}


// ---------------------------------------------------------------------------
// Backup sets and chains
// ---------------------------------------------------------------------------

/// Strict lexicographic order on character strings, by code point.
#[verifier::opaque]
pub open spec fn lex_lt_chars(a: Seq<char>, b: Seq<char>) -> bool
    decreases a.len(),
{
    if b.len() == 0 {
        false
    } else if a.len() == 0 {
        true
    } else if a[0] < b[0] {
        true
    } else if b[0] < a[0] {
        false
    } else {
        lex_lt_chars(a.drop_first(), b.drop_first())
    }
}

proof fn lemma_chars_trichotomy(a: Seq<char>, b: Seq<char>)
    ensures
        lex_lt_chars(a, b) || a == b || lex_lt_chars(b, a),
        lex_lt_chars(a, b) ==> a != b && !lex_lt_chars(b, a),
        a == b ==> !lex_lt_chars(a, b),
    decreases a.len(),
{
    reveal(lex_lt_chars);
    if a.len() == 0 && b.len() == 0 {
        assert(a =~= b);
    } else if a.len() == 0 || b.len() == 0 {
    } else if a[0] < b[0] || b[0] < a[0] {
        if a == b {
            assert(a[0] == b[0]);
        }
    } else {
        assert(a[0] == b[0]);
        lemma_chars_trichotomy(a.drop_first(), b.drop_first());
        if a.drop_first() == b.drop_first() {
            assert forall|k: int| 0 <= k < a.len() implies a[k] == b[k] by {
                if k > 0 {
                    assert(a.drop_first()[k - 1] == b.drop_first()[k - 1]);
                }
            }
            assert(a =~= b);
        }
        if a == b {
            assert(a.drop_first() =~= b.drop_first());
        }
    }
}

proof fn lemma_chars_skip(a: Seq<char>, b: Seq<char>, i: int)
    requires
        0 <= i <= a.len(),
        i <= b.len(),
        a.take(i) == b.take(i),
    ensures
        lex_lt_chars(a, b) == lex_lt_chars(a.skip(i), b.skip(i)),
    decreases i,
{
    reveal(lex_lt_chars);
    if i == 0 {
        assert(a.skip(0) =~= a);
        assert(b.skip(0) =~= b);
    } else {
        assert(a.take(i)[0] == a[0] && b.take(i)[0] == b[0]);
        assert(a[0] == b[0]);
        assert(a.drop_first().take(i - 1) =~= a.take(i).drop_first());
        assert(b.drop_first().take(i - 1) =~= b.take(i).drop_first());
        lemma_chars_skip(a.drop_first(), b.drop_first(), i - 1);
        assert(a.drop_first().skip(i - 1) =~= a.skip(i));
        assert(b.drop_first().skip(i - 1) =~= b.skip(i));
    }
}

/// Whether the first string comes strictly before the second, by code point.
fn str_chars_lt(a: &String, b: &String) -> (r: bool)
    ensures
        r == lex_lt_chars(a@, b@),
{
    proof {
        reveal(lex_lt_chars);
        lemma_chars_trichotomy(a@, b@);
    }
    let av = chars_vec(a.as_str());
    let bv = chars_vec(b.as_str());
    let n: usize = if av.len() <= bv.len() {
        av.len()
    } else {
        bv.len()
    };
    let mut i: usize = 0;
    while i < n
        invariant
            0 <= i <= n,
            n <= av@.len(),
            n <= bv@.len(),
            av@ == a@,
            bv@ == b@,
            a@.take(i as int) == b@.take(i as int),
        decreases n - i,
    {
        let ca = av[i];
        let cb = bv[i];
        if ca < cb {
            proof {
                reveal(lex_lt_chars);
                lemma_chars_skip(a@, b@, i as int);
            }
            return true;
        }
        if cb < ca {
            proof {
                reveal(lex_lt_chars);
                lemma_chars_skip(b@, a@, i as int);
                lemma_chars_trichotomy(a@, b@);
            }
            return false;
        }
        proof {
            assert(a@[i as int] == b@[i as int]);
            assert(a@.take(i + 1) =~= b@.take(i + 1));
        }
        i = i + 1;
    }
    if av.len() < bv.len() {
        proof {
            reveal(lex_lt_chars);
            lemma_chars_skip(a@, b@, i as int);
        }
        true
    } else {
        proof {
            reveal(lex_lt_chars);
            if a@.len() == b@.len() {
                assert(a@.take(i as int) =~= a@);
                assert(b@.take(i as int) =~= b@);
                assert(a@ =~= b@);
            } else {
                lemma_chars_skip(b@, a@, i as int);
            }
            lemma_chars_trichotomy(a@, b@);
        }
        false
    }
}

/// All files of one backup run: those sharing a kind and a timestamp.
pub struct BackupSet {
    pub file_type: FileType,
    pub time: String,
    pub manifest_path: Option<String>,
    pub manifest_partial: bool,
    pub volumes: Vec<(i32, String, bool)>,
    pub compressed: bool,
    pub encrypted: bool,
}

/// First index of a volume entry with the given number.
pub open spec fn find_vol(vs: Seq<(i32, String, bool)>, n: int) -> Option<int>
    decreases vs.len(),
{
    if vs.len() == 0 {
        None
    } else if vs[0].0 == n {
        Some(0)
    } else {
        match find_vol(vs.drop_first(), n) {
            Some(i) => Some(i + 1),
            None => None,
        }
    }
}

/// The name classifies exactly to the given record.
#[verifier::opaque]
pub open spec fn classifies_to(name: Seq<char>, f: FileNameV) -> bool {
    spec_classify(spec_lower(name)) == Some(f)
}

/// Every member of the set classifies under the set's own timestamp: volume
/// entries as data volumes with their stated number, the manifest entry as a
/// manifest with the stated partiality.
#[verifier::opaque]
pub open spec fn set_members_classified(s: BackupSet) -> bool {
    &&& forall|i: int| 0 <= i < s.volumes@.len() ==> (spec_classify(
        spec_lower((#[trigger] s.volumes@[i]).1@),
    ) matches Some(f) && !f.manifest && f.file_type == s.file_type && f.volume_number
        == s.volumes@[i].0 && f.time == s.time@ && f.partial == s.volumes@[i].2)
    &&& (s.manifest_path matches Some(p) ==> (spec_classify(spec_lower(p@)) matches Some(f)
        && f.manifest && f.file_type == s.file_type && f.time == s.time@ && f.partial
        == s.manifest_partial))
}

/// Specification-level view of a backup set.
#[verifier::ext_equal]
pub struct BackupSetV {
    pub file_type: FileType,
    pub time: Seq<char>,
    pub manifest_path: Option<Seq<char>>,
    pub manifest_partial: bool,
    pub volumes: Seq<(i32, Seq<char>, bool)>,
    pub compressed: bool,
    pub encrypted: bool,
}

impl View for BackupSet {
    type V = BackupSetV;

    open spec fn view(&self) -> BackupSetV {
        BackupSetV {
            file_type: self.file_type,
            time: self.time@,
            manifest_path: match self.manifest_path {
                Some(p) => Some(p@),
                None => None,
            },
            manifest_partial: self.manifest_partial,
            volumes: self.volumes@.map_values(|v: (i32, String, bool)| (v.0, v.1@, v.2)),
            compressed: self.compressed,
            encrypted: self.encrypted,
        }
    }
}

/// The views of a sequence of sets.
pub open spec fn sets_view(ss: Seq<BackupSet>) -> Seq<BackupSetV> {
    ss.map_values(|s: BackupSet| s@)
}

/// Where the timestamp `t` lands in a sorted sequence of sets: the index of
/// the set carrying it (found), or the position where a set with it belongs.
pub open spec fn spec_slot_from(sets: Seq<BackupSetV>, t: Seq<char>, i: int) -> (int, bool)
    decreases sets.len() - i,
{
    if i < 0 || i >= sets.len() {
        (i, false)
    } else if sets[i].time == t {
        (i, true)
    } else if lex_lt_chars(t, sets[i].time) {
        (i, false)
    } else {
        spec_slot_from(sets, t, i + 1)
    }
}

/// One classified member folded into the set of its timestamp: a data
/// volume is appended to the volume list, the first manifest name seen is
/// kept, the compressed and encrypted marks take the member's in.
pub open spec fn spec_update_set(s: BackupSetV, name: Seq<char>, f: FileNameV) -> BackupSetV {
    BackupSetV {
        file_type: s.file_type,
        time: s.time,
        manifest_path: if f.manifest && s.manifest_path is None {
            Some(name)
        } else {
            s.manifest_path
        },
        manifest_partial: if f.manifest && s.manifest_path is None {
            f.partial
        } else {
            s.manifest_partial
        },
        volumes: if f.manifest {
            s.volumes
        } else {
            s.volumes.push((f.volume_number, name, f.partial))
        },
        compressed: s.compressed || f.compressed,
        encrypted: s.encrypted || f.encrypted,
    }
}

/// A fresh set holding one classified member.
pub open spec fn spec_new_set(name: Seq<char>, f: FileNameV) -> BackupSetV {
    BackupSetV {
        file_type: f.file_type,
        time: f.time,
        manifest_path: if f.manifest {
            Some(name)
        } else {
            None
        },
        manifest_partial: if f.manifest {
            f.partial
        } else {
            false
        },
        volumes: if f.manifest {
            Seq::empty()
        } else {
            seq![(f.volume_number, name, f.partial)]
        },
        compressed: f.compressed,
        encrypted: f.encrypted,
    }
}

/// One name folded into the sets: a name that classifies joins (or opens,
/// in timestamp order) the set of its timestamp; any other name changes
/// nothing.
#[verifier::opaque]
pub open spec fn spec_add_name(sets: Seq<BackupSetV>, name: Seq<char>) -> Seq<BackupSetV> {
    match spec_classify(spec_lower(name)) {
        None => sets,
        Some(f) => {
            let s = spec_slot_from(sets, f.time, 0);
            if s.1 {
                sets.update(s.0, spec_update_set(sets[s.0], name, f))
            } else {
                sets.insert(s.0, spec_new_set(name, f))
            }
        },
    }
}

/// The backup sets that a listing folds to, name by name, first to last.
pub open spec fn spec_build(names: Seq<Seq<char>>) -> Seq<BackupSetV>
    decreases names.len(),
{
    if names.len() == 0 {
        Seq::empty()
    } else {
        spec_add_name(spec_build(names.drop_last()), names.last())
    }
}

proof fn lemma_spec_build_step(names: Seq<Seq<char>>, k: int)
    requires
        0 <= k < names.len(),
    ensures
        spec_build(names.take(k + 1)) == spec_add_name(spec_build(names.take(k)), names[k]),
{
    assert(names.take(k + 1).drop_last() =~= names.take(k));
    assert(names.take(k + 1).last() == names[k]);
}

impl BackupSet {
    /// The stored file name of volume `n`, if the set has one.
    pub fn volume_path(&self, n: usize) -> (r: Option<&String>)
        ensures
            match r {
                Some(p) => find_vol(self.volumes@, n as int) matches Some(i) && p@
                    == self.volumes@[i].1@,
                None => find_vol(self.volumes@, n as int) is None,
            },
    {
        let m = self.volumes.len();
        let mut i: usize = 0;
        while i < m
            invariant
                0 <= i <= m,
                m == self.volumes@.len(),
                forall|j: int| 0 <= j < i ==> ((#[trigger] self.volumes@[j]).0 as int) != n as int,
            decreases m - i,
        {
            let num = self.volumes[i].0;
            if num >= 0 && (num as usize) == n {
                proof {
                    lemma_find_vol_at(self.volumes@, n as int, i as int);
                }
                return Some(&self.volumes[i].1);
            }
            i = i + 1;
        }
        proof {
            lemma_find_vol_none(self.volumes@, n as int);
        }
        None
    }

    /// Whether the set's files are compressed.
    pub fn is_compressed(&self) -> (r: bool)
        ensures
            r == self.compressed,
    {
        self.compressed
    }

    /// Whether the set's files are encrypted.
    pub fn is_encrypted(&self) -> (r: bool)
        ensures
            r == self.encrypted,
    {
        self.encrypted
    }

    /// A set is complete when it has a non-partial manifest, its volume
    /// numbers include every number from 1 up to the number of volumes, and
    /// no volume file is partial.
    pub fn is_complete(&self) -> (r: bool)
        ensures
            r == (self.manifest_path is Some && !self.manifest_partial && (forall|n: int|
                1 <= n <= self.volumes@.len() ==> find_vol(self.volumes@, n) is Some) && (forall|
                i: int,
            |
                0 <= i < self.volumes@.len() ==> !(#[trigger] self.volumes@[i]).2)),
    {
        if self.manifest_path.is_none() || self.manifest_partial {
            return false;
        }
        let m = self.volumes.len();
        let mut idx: usize = 0;
        while idx < m
            invariant
                0 <= idx <= m,
                m == self.volumes@.len(),
                forall|k: int| 1 <= k <= idx ==> find_vol(self.volumes@, k) is Some,
                forall|j: int| 0 <= j < idx ==> !(#[trigger] self.volumes@[j]).2,
            decreases m - idx,
        {
            if self.volume_path(idx + 1).is_none() {
                return false;
            }
            if self.volumes[idx].2 {
                return false;
            }
            idx = idx + 1;
        }
        true
    }
}

proof fn lemma_find_vol_at(vs: Seq<(i32, String, bool)>, n: int, i: int)
    requires
        0 <= i < vs.len(),
        vs[i].0 == n,
        forall|j: int| 0 <= j < i ==> ((#[trigger] vs[j]).0 as int) != n,
    ensures
        find_vol(vs, n) == Some(i),
    decreases vs.len(),
{
    if vs[0].0 == n {
        assert(i == 0);
    } else {
        assert(vs.drop_first()[i - 1] == vs[i]);
        assert(forall|j: int| 0 <= j < i - 1 ==> vs.drop_first()[j] == vs[j + 1]);
        lemma_find_vol_at(vs.drop_first(), n, i - 1);
    }
}

proof fn lemma_find_vol_none(vs: Seq<(i32, String, bool)>, n: int)
    requires
        forall|j: int| 0 <= j < vs.len() ==> ((#[trigger] vs[j]).0 as int) != n,
    ensures
        find_vol(vs, n) is None,
    decreases vs.len(),
{
    if vs.len() > 0 {
        assert(forall|j: int| 0 <= j < vs.drop_first().len() ==> vs.drop_first()[j] == vs[j + 1]);
        lemma_find_vol_none(vs.drop_first(), n);
    }
}

/// The backup sets of an archive, ordered by their timestamps.
pub struct BackupChain {
    sets: Vec<BackupSet>,
}

impl BackupChain {
    /// The sets, in timestamp order.
    pub closed spec fn spec_sets(&self) -> Seq<BackupSet> {
        self.sets@
    }

    /// Timestamps strictly increase along the chain, and every member of
    /// every set classifies under its set's timestamp.
    pub open spec fn wf(&self) -> bool {
        &&& forall|i: int| 0 <= i < self.spec_sets().len() - 1 ==> lex_lt_chars(
            (#[trigger] self.spec_sets()[i]).time@,
            self.spec_sets()[i + 1].time@,
        )
        &&& forall|i: int| 0 <= i < self.spec_sets().len() ==> set_members_classified(
            #[trigger] self.spec_sets()[i],
        )
    }

    /// The `i`-th backup set of the chain.
    pub fn nth_set(&self, i: usize) -> (r: Option<&BackupSet>)
        ensures
            match r {
                Some(s) => i < self.spec_sets().len() && *s == self.spec_sets()[i as int],
                None => i >= self.spec_sets().len(),
            },
    {
        if i < self.sets.len() {
            Some(&self.sets[i])
        } else {
            None
        }
    }

    /// How many sets the chain holds.
    pub fn num_sets(&self) -> (r: usize)
        ensures
            r == self.spec_sets().len(),
    {
        self.sets.len()
    }

    /// Groups classified file names into backup sets, one per timestamp,
    /// ordered by timestamp; unrecognised names are dropped. The result is
    /// exactly the fold `spec_build` of the listing: each classified name
    /// joins (or opens) the set of its timestamp, volume entries in listing
    /// order, the manifest being the first manifest name seen, and the
    /// compressed and encrypted marks the disjunctions over the members.
    pub fn build(names: &Vec<String>) -> (r: BackupChain)
        ensures
            r.wf(),
            sets_view(r.spec_sets()) == spec_build(names.deep_view()),
    {
        let ghost dv = names.deep_view();
        let parser = FileNameParser::new();
        let mut sets: Vec<BackupSet> = Vec::new();
        let mut k: usize = 0;
        proof {
            assert(sets_view(sets@) =~= spec_build(dv.take(0)));
        }
        while k < names.len()
            invariant
                0 <= k <= names@.len(),
                dv == names.deep_view(),
                dv.len() == names@.len(),
                chain_sorted(sets@),
                forall|i: int| 0 <= i < sets@.len() ==> set_members_classified(
                    #[trigger] sets@[i],
                ),
                sets_view(sets@) == spec_build(dv.take(k as int)),
            decreases names@.len() - k,
        {
            let name = &names[k];
            proof {
                assert(dv[k as int] == names@[k as int]@);
            }
            process_name(&mut sets, &parser, name);
            proof {
                lemma_spec_build_step(dv, k as int);
            }
            k = k + 1;
        }
        proof {
            assert(dv.take(k as int) =~= dv);
        }
        BackupChain { sets }
    }
}

/// Folds one file name into the sets: classified names join (or open) the
/// set of their timestamp, the rest are dropped.
#[verifier::rlimit(100)]
fn process_name(sets: &mut Vec<BackupSet>, parser: &FileNameParser, name: &String)
    requires
        chain_sorted(old(sets)@),
        forall|i: int| 0 <= i < old(sets)@.len() ==> set_members_classified(
            #[trigger] old(sets)@[i],
        ),
    ensures
        chain_sorted(final(sets)@),
        forall|i: int| 0 <= i < final(sets)@.len() ==> set_members_classified(
            #[trigger] final(sets)@[i],
        ),
        sets_view(final(sets)@) == spec_add_name(sets_view(old(sets)@), name@),
{
    match classify_name(parser, name) {
        None => {
            proof {
                reveal(spec_add_name);
            }
        },
        Some(f) => {
            let ghost fv = f@;
            let (i, found) = find_slot(sets, &f.time);
            if found {
                add_to_existing(sets, i, name, f);
            } else {
                add_new_at(sets, i, name, f);
            }
            proof {
                reveal(spec_add_name);
                reveal(classifies_to);
                assert(spec_classify(spec_lower(name@)) == Some(fv));
                assert(spec_slot_from(sets_view(old(sets)@), fv.time, 0) == (i as int, found));
            }
        },
    }
}

/// Classifies one name, keeping only what the grouping needs of it.
#[verifier::spinoff_prover]
#[verifier::rlimit(100)]
fn classify_name(parser: &FileNameParser, name: &String) -> (r: Option<FileName>)
    ensures
        r matches Some(f) ==> classifies_to(name@, f@),
        r is None ==> spec_classify(spec_lower(name@)) is None,
{
    let r = parser.parse(name.as_str());
    proof {
        reveal(classifies_to);
    }
    r
}

#[verifier::spinoff_prover]
#[verifier::rlimit(100)]
fn add_to_existing(sets: &mut Vec<BackupSet>, i: usize, name: &String, f: FileName)
    requires
        chain_sorted(old(sets)@),
        forall|j: int| 0 <= j < old(sets)@.len() ==> set_members_classified(
            #[trigger] old(sets)@[j],
        ),
        classifies_to(name@, f@),
        i < old(sets)@.len(),
        old(sets)@[i as int].time@ == f.time@,
    ensures
        chain_sorted(final(sets)@),
        forall|j: int| 0 <= j < final(sets)@.len() ==> set_members_classified(
            #[trigger] final(sets)@[j],
        ),
        sets_view(final(sets)@) == sets_view(old(sets)@).update(
            i as int,
            spec_update_set(sets_view(old(sets)@)[i as int], name@, f@),
        ),
{
    let ghost oldsets = sets@;
    let mut st = sets.remove(i);
    update_set(&mut st, name, f);
    proof {
        lemma_reinsert_keeps_wf(oldsets, i as int, st);
    }
    sets.insert(i, st);
    proof {
        lemma_view_reinsert(oldsets, sets@, i as int, st, name@, f@);
    }
}

#[verifier::rlimit(100)]
#[verifier::spinoff_prover]
proof fn lemma_view_reinsert(
    oldsets: Seq<BackupSet>,
    newsets: Seq<BackupSet>,
    i: int,
    st: BackupSet,
    name: Seq<char>,
    f: FileNameV,
)
    requires
        0 <= i < oldsets.len(),
        newsets == oldsets.remove(i).insert(i, st),
        st@ == spec_update_set(oldsets[i]@, name, f),
    ensures
        sets_view(newsets) == sets_view(oldsets).update(
            i,
            spec_update_set(sets_view(oldsets)[i], name, f),
        ),
{
    let ov = sets_view(oldsets);
    let nv = sets_view(newsets);
    assert(ov[i] == oldsets[i]@);
    assert forall|j: int| 0 <= j < nv.len() implies nv[j] == ov.update(
        i,
        spec_update_set(ov[i], name, f),
    )[j] by {
        if j == i {
            assert(newsets[j] == st);
        } else {
            assert(newsets[j] == oldsets[j]);
        }
    }
    assert(nv =~= ov.update(i, spec_update_set(ov[i], name, f)));
}

#[verifier::spinoff_prover]
#[verifier::rlimit(100)]
fn add_new_at(sets: &mut Vec<BackupSet>, i: usize, name: &String, f: FileName)
    requires
        chain_sorted(old(sets)@),
        forall|j: int| 0 <= j < old(sets)@.len() ==> set_members_classified(
            #[trigger] old(sets)@[j],
        ),
        classifies_to(name@, f@),
        i <= old(sets)@.len(),
        forall|j: int| 0 <= j < i ==> lex_lt_chars((#[trigger] old(sets)@[j]).time@, f.time@),
        i < old(sets)@.len() ==> lex_lt_chars(f.time@, old(sets)@[i as int].time@),
    ensures
        chain_sorted(final(sets)@),
        forall|j: int| 0 <= j < final(sets)@.len() ==> set_members_classified(
            #[trigger] final(sets)@[j],
        ),
        sets_view(final(sets)@) == sets_view(old(sets)@).insert(
            i as int,
            spec_new_set(name@, f@),
        ),
{
    let st = new_set(name, f);
    let ghost oldsets = sets@;
    proof {
        lemma_insert_keeps_wf(oldsets, i as int, st);
    }
    sets.insert(i, st);
    proof {
        lemma_view_insert(oldsets, sets@, i as int, st, name@, f@);
    }
}

#[verifier::rlimit(100)]
#[verifier::spinoff_prover]
proof fn lemma_view_insert(
    oldsets: Seq<BackupSet>,
    newsets: Seq<BackupSet>,
    i: int,
    st: BackupSet,
    name: Seq<char>,
    f: FileNameV,
)
    requires
        0 <= i <= oldsets.len(),
        newsets == oldsets.insert(i, st),
        st@ == spec_new_set(name, f),
    ensures
        sets_view(newsets) == sets_view(oldsets).insert(i, spec_new_set(name, f)),
{
    let ov = sets_view(oldsets);
    let nv = sets_view(newsets);
    assert forall|j: int| 0 <= j < nv.len() implies nv[j] == ov.insert(i, spec_new_set(name, f))[j]
    by {
        if j < i {
            assert(newsets[j] == oldsets[j]);
        } else if j == i {
            assert(newsets[j] == st);
        } else {
            assert(newsets[j] == oldsets[j - 1]);
        }
    }
    assert(nv =~= ov.insert(i, spec_new_set(name, f)));
}

#[verifier::spinoff_prover]
#[verifier::rlimit(100)]
proof fn lemma_reinsert_keeps_wf(sets: Seq<BackupSet>, i: int, st: BackupSet)
    requires
        chain_sorted(sets),
        forall|j: int| 0 <= j < sets.len() ==> set_members_classified(#[trigger] sets[j]),
        0 <= i < sets.len(),
        st.time@ == sets[i].time@,
        set_members_classified(st),
    ensures
        chain_sorted(sets.remove(i).insert(i, st)),
        forall|j: int| 0 <= j < sets.remove(i).insert(i, st).len() ==> set_members_classified(
            #[trigger] sets.remove(i).insert(i, st)[j],
        ),
{
    let u = sets.remove(i).insert(i, st);
    assert(u =~= sets.update(i, st));
    lemma_update_keeps_chain(sets, i, st);
    assert forall|j: int| 0 <= j < u.len() implies set_members_classified(#[trigger] u[j]) by {
        if j != i {
            assert(u[j] == sets[j]);
        }
    }
}

#[verifier::spinoff_prover]
#[verifier::rlimit(100)]
proof fn lemma_insert_keeps_wf(sets: Seq<BackupSet>, i: int, st: BackupSet)
    requires
        chain_sorted(sets),
        forall|j: int| 0 <= j < sets.len() ==> set_members_classified(#[trigger] sets[j]),
        0 <= i <= sets.len(),
        forall|j: int| 0 <= j < i ==> lex_lt_chars((#[trigger] sets[j]).time@, st.time@),
        i < sets.len() ==> lex_lt_chars(st.time@, sets[i].time@),
        set_members_classified(st),
    ensures
        chain_sorted(sets.insert(i, st)),
        forall|j: int| 0 <= j < sets.insert(i, st).len() ==> set_members_classified(
            #[trigger] sets.insert(i, st)[j],
        ),
{
    let u = sets.insert(i, st);
    lemma_insert_keeps_chain(sets, i, st);
    assert forall|j: int| 0 <= j < u.len() implies set_members_classified(#[trigger] u[j]) by {
        if j < i {
            assert(u[j] == sets[j]);
        } else if j > i {
            assert(u[j] == sets[j - 1]);
        }
    }
}

/// Folds one more classified member into the set of its timestamp.
#[verifier::spinoff_prover]
#[verifier::rlimit(100)]
fn update_set(st: &mut BackupSet, name: &String, f: FileName)
    requires
        set_members_classified(*old(st)),
        classifies_to(name@, f@),
        f.time@ == old(st).time@,
        f.file_type == old(st).file_type,
    ensures
        set_members_classified(*final(st)),
        final(st).time@ == old(st).time@,
        final(st)@ == spec_update_set(old(st)@, name@, f@),
{
    if f.manifest {
        if st.manifest_path.is_none() {
            st.manifest_path = Some(name.clone());
            st.manifest_partial = f.partial;
        }
    } else {
        st.volumes.push((f.volume_number, name.clone(), f.partial));
    }
    st.compressed = st.compressed || f.compressed;
    st.encrypted = st.encrypted || f.encrypted;
    proof {
        assert(st@.volumes =~= spec_update_set(old(st)@, name@, f@).volumes);
        assert(st@ =~~= spec_update_set(old(st)@, name@, f@));
        assert(set_members_classified(*st)) by {
            reveal(set_members_classified);
            reveal(classifies_to);
            if !f.manifest {
                assert(forall|j: int|
                    0 <= j < old(st).volumes@.len() ==> st.volumes@[j] == #[trigger] old(
                        st,
                    ).volumes@[j]);
                assert(st.volumes@.last().0 == f.volume_number && st.volumes@.last().1@ == name@
                    && st.volumes@.last().2 == f.partial);
            }
        }
    }
}

/// A fresh backup set holding one classified member.
#[verifier::spinoff_prover]
#[verifier::rlimit(100)]
fn new_set(name: &String, f: FileName) -> (st: BackupSet)
    requires
        classifies_to(name@, f@),
    ensures
        set_members_classified(st),
        st.time@ == f.time@,
        st@ == spec_new_set(name@, f@),
{
    let mut vols: Vec<(i32, String, bool)> = Vec::new();
    let manifest_path: Option<String>;
    let manifest_partial: bool;
    if f.manifest {
        manifest_path = Some(name.clone());
        manifest_partial = f.partial;
    } else {
        vols.push((f.volume_number, name.clone(), f.partial));
        manifest_path = None;
        manifest_partial = false;
    }
    let st = BackupSet {
        file_type: f.file_type,
        time: f.time,
        manifest_path,
        manifest_partial,
        volumes: vols,
        compressed: f.compressed,
        encrypted: f.encrypted,
    };
    proof {
        assert(st@.volumes =~= spec_new_set(name@, f@).volumes);
        assert(st@ =~~= spec_new_set(name@, f@));
        assert(set_members_classified(st)) by {
            reveal(set_members_classified);
            reveal(classifies_to);
        }
    }
    st
}

/// Timestamps strictly increase along a sequence of sets.
pub open spec fn chain_sorted(sets: Seq<BackupSet>) -> bool {
    forall|i: int| 0 <= i < sets.len() - 1 ==> lex_lt_chars(
        (#[trigger] sets[i]).time@,
        sets[i + 1].time@,
    )
}

#[verifier::spinoff_prover]
proof fn lemma_update_keeps_chain(sets: Seq<BackupSet>, i: int, st: BackupSet)
    requires
        chain_sorted(sets),
        0 <= i < sets.len(),
        st.time@ == sets[i].time@,
    ensures
        chain_sorted(sets.update(i, st)),
{
    let u = sets.update(i, st);
    assert forall|a: int| 0 <= a < u.len() - 1 implies lex_lt_chars(
        (#[trigger] u[a]).time@,
        u[a + 1].time@,
    ) by {
        assert(lex_lt_chars(sets[a].time@, sets[a + 1].time@));
    }
}

#[verifier::spinoff_prover]
#[verifier::rlimit(50)]
proof fn lemma_insert_keeps_chain(sets: Seq<BackupSet>, i: int, st: BackupSet)
    requires
        chain_sorted(sets),
        0 <= i <= sets.len(),
        forall|j: int| 0 <= j < i ==> lex_lt_chars((#[trigger] sets[j]).time@, st.time@),
        i < sets.len() ==> lex_lt_chars(st.time@, sets[i].time@),
    ensures
        chain_sorted(sets.insert(i, st)),
{
    let u = sets.insert(i, st);
    assert forall|a: int| 0 <= a < u.len() - 1 implies lex_lt_chars(
        (#[trigger] u[a]).time@,
        u[a + 1].time@,
    ) by {
        if a < i - 1 {
            assert(u[a] == sets[a] && u[a + 1] == sets[a + 1]);
        } else if a == i - 1 {
            assert(u[a] == sets[a] && u[a + 1] == st);
        } else if a == i {
            assert(u[a] == st && u[a + 1] == sets[a]);
        } else {
            assert(u[a] == sets[a - 1] && u[a + 1] == sets[a]);
        }
    }
}

/// Scans for the timestamp `t`: either the index of the set carrying it, or
/// the position where a set with it belongs.
#[verifier::spinoff_prover]
fn find_slot(sets: &Vec<BackupSet>, t: &String) -> (r: (usize, bool))
    requires
        chain_sorted(sets@),
    ensures
        r.1 ==> r.0 < sets@.len() && sets@[r.0 as int].time@ == t@,
        !r.1 ==> r.0 <= sets@.len() && (r.0 < sets@.len() ==> lex_lt_chars(
            t@,
            sets@[r.0 as int].time@,
        )),
        forall|j: int| 0 <= j < r.0 ==> lex_lt_chars((#[trigger] sets@[j]).time@, t@),
        (r.0 as int, r.1) == spec_slot_from(sets_view(sets@), t@, 0),
{
    let ghost sv = sets_view(sets@);
    let n = sets.len();
    let mut i: usize = 0;
    while i < n
        invariant
            0 <= i <= n,
            n == sets@.len(),
            sv == sets_view(sets@),
            sv.len() == n,
            forall|j: int| 0 <= j < i ==> lex_lt_chars((#[trigger] sets@[j]).time@, t@),
            spec_slot_from(sv, t@, 0) == spec_slot_from(sv, t@, i as int),
        decreases n - i,
    {
        proof {
            assert(sv[i as int] == sets@[i as int]@);
        }
        if sets[i].time == *t {
            proof {
                assert(spec_slot_from(sv, t@, i as int) == (i as int, true));
            }
            return (i, true);
        }
        if str_chars_lt(t, &sets[i].time) {
            proof {
                lemma_chars_trichotomy(t@, sets@[i as int].time@);
                assert(spec_slot_from(sv, t@, i as int) == (i as int, false));
            }
            return (i, false);
        }
        proof {
            lemma_chars_trichotomy(t@, sets@[i as int].time@);
            assert(spec_slot_from(sv, t@, i as int) == spec_slot_from(sv, t@, i + 1));
        }
        i = i + 1;
    }
    proof {
        assert(spec_slot_from(sv, t@, i as int) == (i as int, false));
    }
    (i, false)
}

} // verus!
