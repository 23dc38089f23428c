//! Decisions of the host validation tool that need no floating point: modes,
//! identity checks, exit codes, orientation progress, run labels and the
//! cluster sizes of Allan-deviation analyses.
use crate::text::{chars_of, decimal, push_decimal, push_str};
use vstd::prelude::*;

verus! {

/// How the firmware streams samples.
#[derive(Clone, Copy, Debug, PartialEq, Eq, Structural)]
pub enum StreamMode {
    Text,
    Binary,
}

/// Whether failed physical thresholds fail the run.
#[derive(Clone, Copy, Debug, PartialEq, Eq, Structural)]
pub enum ValidationMode {
    Report,
    Strict,
}

/// The `WHO_AM_I` value a run expects.
#[derive(Clone, Copy, Debug, PartialEq, Eq, Structural)]
pub enum ExpectedIdentity {
    ClassicMpu6050,
    Mpu6500Compatible,
    AnyKnown,
    Exact(u8),
}

/// Whether `observed` is what `expected` asks for: 0x68 for the classic part,
/// 0x70 for the compatible one, either for any known part.
pub open spec fn identity_matches(expected: ExpectedIdentity, observed: u8) -> bool {
    match expected {
        ExpectedIdentity::ClassicMpu6050 => observed == 0x68,
        ExpectedIdentity::Mpu6500Compatible => observed == 0x70,
        ExpectedIdentity::AnyKnown => observed == 0x68 || observed == 0x70,
        ExpectedIdentity::Exact(v) => observed == v,
    }
}

impl ExpectedIdentity {
    /// Whether `observed` is the expected identity.
    pub fn matches(self, observed: u8) -> (r: bool)
        ensures
            r == identity_matches(self, observed),
    {
        match self {
            ExpectedIdentity::ClassicMpu6050 => observed == 0x68,
            ExpectedIdentity::Mpu6500Compatible => observed == 0x70,
            ExpectedIdentity::AnyKnown => observed == 0x68 || observed == 0x70,
            ExpectedIdentity::Exact(expected) => observed == expected,
        }
    }
}

/// The exit code of the stationary suite: 0 only when every tool returned 0
/// and, in strict mode, no physical threshold failed.
pub fn stationary_suite_exit_code(
    tool_return_codes: [i32; 5],
    validation_mode: ValidationMode,
    physical_thresholds_failed: bool,
) -> (code: i32)
    ensures
        code == if (forall|i: int| 0 <= i < 5 ==> #[trigger] tool_return_codes@[i] == 0) && (
        validation_mode == ValidationMode::Report || !physical_thresholds_failed) {
            0i32
        } else {
            1i32
        },
{
    let mut tools_ok = true;
    let mut i: usize = 0;
    while i < 5
        invariant
            i <= 5,
            tools_ok == forall|j: int| 0 <= j < i ==> #[trigger] tool_return_codes@[j] == 0,
        decreases 5 - i,
    {
        tools_ok = tools_ok && tool_return_codes[i] == 0;
        i = i + 1;
    }
    let validation_ok = match validation_mode {
        ValidationMode::Report => true,
        ValidationMode::Strict => !physical_thresholds_failed,
    };
    if tools_ok && validation_ok {
        0
    } else {
        1
    }
}

/// The six faces of an orientation capture, in reporting order.
pub open spec fn face_name(i: int) -> Seq<char> {
    if i == 0 {
        "+X"@
    } else if i == 1 {
        "-X"@
    } else if i == 2 {
        "+Y"@
    } else if i == 3 {
        "-Y"@
    } else if i == 4 {
        "+Z"@
    } else {
        "-Z"@
    }
}

/// The label of face `i` (0 to 5, in the order +X, -X, +Y, -Y, +Z, -Z).
pub fn face_label(i: usize) -> (s: &'static str)
    requires
        i < 6,
    ensures
        s@ == face_name(i as int),
{
    if i == 0 {
        "+X"
    } else if i == 1 {
        "-X"
    } else if i == 2 {
        "+Y"
    } else if i == 3 {
        "-Y"
    } else if i == 4 {
        "+Z"
    } else {
        "-Z"
    }
}

/// One face's progress: `OK` once it has the required samples, else the count
/// out of the requirement.
pub open spec fn face_progress(i: int, count: usize, required: usize) -> Seq<char> {
    if count >= required {
        face_name(i) + " OK"@
    } else {
        face_name(i) + " "@ + decimal(count as nat) + "/"@ + decimal(required as nat)
    }
}

/// The progress of the first `k` faces, separated by spaces.
pub open spec fn progress_text(counts: Seq<usize>, required: usize, k: int) -> Seq<char>
    decreases k,
{
    if k <= 0 {
        Seq::empty()
    } else if k == 1 {
        face_progress(0, counts[0], required)
    } else {
        progress_text(counts, required, k - 1) + " "@ + face_progress(k - 1, counts[k - 1], required)
    }
}

/// The orientation progress line, given the sample count of each face.
pub fn orientation_bins_summary(counts: &[usize; 6], required: usize) -> (s: String)
    ensures
        s@ == progress_text(counts@, required, 6),
{
    let mut s = String::new();
    let mut i: usize = 0;
    while i < 6
        invariant
            i <= 6,
            s@ == progress_text(counts@, required, i as int),
        decreases 6 - i,
    {
        let ghost before = s@;
        if i > 0 {
            push_str(&mut s, " ");
        }
        push_str(&mut s, face_label(i));
        let count = counts[i];
        if count >= required {
            push_str(&mut s, " OK");
        } else {
            push_str(&mut s, " ");
            push_decimal(&mut s, count as u64);
            push_str(&mut s, "/");
            push_decimal(&mut s, required as u64);
        }
        i = i + 1;
        proof {
            if i == 1 {
                assert(s@ =~= progress_text(counts@, required, 1));
            } else {
                assert(s@ =~= progress_text(counts@, required, i as int));
            }
        }
    }
    s
}

/// The faces among the first `k` that still lack samples, in order.
pub open spec fn missing_faces(counts: Seq<usize>, required: usize, k: int) -> Seq<Seq<char>>
    decreases k,
{
    if k <= 0 {
        Seq::empty()
    } else if counts[k - 1] < required {
        missing_faces(counts, required, k - 1).push(face_name(k - 1))
    } else {
        missing_faces(counts, required, k - 1)
    }
}

/// No face among the first `k` lacks samples exactly when none of the first
/// `k` counts is below `required`.
proof fn lemma_missing_faces_empty(counts: Seq<usize>, required: usize, k: int)
    requires
        0 <= k <= counts.len(),
    ensures
        (missing_faces(counts, required, k).len() == 0) == (forall|j: int|
            0 <= j < k ==> #[trigger] counts[j] >= required),
    decreases k,
{
    if k > 0 {
        lemma_missing_faces_empty(counts, required, k - 1);
    }
}

/// Whether every face has at least `required` samples; then no face is
/// missing.
pub fn orientation_covered(counts: &[usize; 6], required: usize) -> (c: bool)
    ensures
        c == (forall|k: int| 0 <= k < 6 ==> #[trigger] counts@[k] >= required),
        c == (missing_faces(counts@, required, 6).len() == 0),
{
    let mut i: usize = 0;
    while i < 6
        invariant
            i <= 6,
            forall|k: int| 0 <= k < i ==> #[trigger] counts@[k] >= required,
        decreases 6 - i,
    {
        if counts[i] < required {
            proof {
                lemma_missing_faces_empty(counts@, required, 6);
                assert(!(counts@[i as int] >= required));
            }
            return false;
        }
        i = i + 1;
    }
    proof {
        lemma_missing_faces_empty(counts@, required, 6);
    }
    true
}

/// The faces that still lack samples, in reporting order.
pub fn orientation_missing_faces(counts: &[usize; 6], required: usize) -> (r: Vec<&'static str>)
    ensures
        r@.len() == missing_faces(counts@, required, 6).len(),
        forall|j: int|
            0 <= j < r@.len() ==> (#[trigger] r@[j])@ == missing_faces(counts@, required, 6)[j],
{
    let mut out: Vec<&'static str> = Vec::new();
    let mut i: usize = 0;
    while i < 6
        invariant
            i <= 6,
            out@.len() == missing_faces(counts@, required, i as int).len(),
            forall|j: int|
                0 <= j < out@.len() ==> (#[trigger] out@[j])@ == missing_faces(
                    counts@,
                    required,
                    i as int,
                )[j],
        decreases 6 - i,
    {
        if counts[i] < required {
            out.push(face_label(i));
        }
        i = i + 1;
    }
    out
}

/// Characters kept in a run label: ASCII letters and digits, `_`, `-`, `.`.
pub open spec fn label_char_ok(c: char) -> bool {
    ||| 'a' <= c <= 'z'
    ||| 'A' <= c <= 'Z'
    ||| '0' <= c <= '9'
    ||| c == '_'
    ||| c == '-'
    ||| c == '.'
}

/// `label` with every other character replaced by `-`.
pub open spec fn label_chars(label: Seq<char>) -> Seq<char> {
    label.map_values(|c: char| if label_char_ok(c) { c } else { '-' })
}

/// The number of leading `-` of `s`.
pub open spec fn leading_dashes(s: Seq<char>) -> int
    decreases s.len(),
{
    if s.len() > 0 && s[0] == '-' {
        1 + leading_dashes(s.drop_first())
    } else {
        0
    }
}

/// The number of trailing `-` of `s`.
pub open spec fn trailing_dashes(s: Seq<char>) -> int
    decreases s.len(),
{
    if s.len() > 0 && s.last() == '-' {
        1 + trailing_dashes(s.drop_last())
    } else {
        0
    }
}

/// A label safe for a directory name: disallowed characters become `-`,
/// leading and trailing `-` are dropped, and an empty result becomes `run`.
pub open spec fn safe_label_spec(label: Seq<char>) -> Seq<char> {
    let s = label_chars(label);
    if leading_dashes(s) == s.len() {
        "run"@
    } else {
        s.subrange(leading_dashes(s), s.len() - trailing_dashes(s))
    }
}

/// Makes `label` safe to use in a directory name.
pub fn safe_label(label: &str) -> (r: String)
    ensures
        r@ == safe_label_spec(label@),
{
    let cs = chars_of(label);
    let mut mapped: Vec<char> = Vec::new();
    let mut i: usize = 0;
    while i < cs.len()
        invariant
            i <= cs@.len(),
            cs@ == label@,
            mapped@ == label_chars(label@).take(i as int),
        decreases cs@.len() - i,
    {
        let c = cs[i];
        let ok = ('a' <= c && c <= 'z') || ('A' <= c && c <= 'Z') || ('0' <= c && c <= '9') || c
            == '_' || c == '-' || c == '.';
        mapped.push(if ok { c } else { '-' });
        i = i + 1;
        assert(mapped@ =~= label_chars(label@).take(i as int));
    }
    let ghost s = label_chars(label@);
    assert(mapped@ =~= s);
    let mut a: usize = 0;
    assert(s.skip(0) =~= s);
    while a < mapped.len() && mapped[a] == '-'
        invariant
            a <= s.len(),
            mapped@ == s,
            leading_dashes(s) == a + leading_dashes(s.skip(a as int)),
        decreases s.len() - a,
    {
        assert(s.skip(a as int).drop_first() =~= s.skip(a + 1));
        a = a + 1;
    }
    if a == mapped.len() {
        let mut r = String::new();
        push_str(&mut r, "run");
        return r;
    }
    let mut b: usize = mapped.len();
    assert(s.take(s.len() as int) =~= s);
    while b > a && mapped[b - 1] == '-'
        invariant
            a < b <= s.len(),
            mapped@ == s,
            s[a as int] != '-',
            trailing_dashes(s) == (s.len() - b) + trailing_dashes(s.take(b as int)),
        decreases b,
    {
        assert(s.take(b as int).drop_last() =~= s.take(b - 1));
        b = b - 1;
    }
    assert(s.skip(a as int)[0] != '-');
    assert(leading_dashes(s) == a);
    assert(s.take(b as int).last() != '-');
    assert(trailing_dashes(s) == s.len() - b);
    crate::rawline::copy_range(&mapped, a, b)
}

/// The next Allan cluster size after `m`: at least one more, else half as
/// many again, rounded down.
pub open spec fn allan_next(m: int) -> int {
    if m + m / 2 > m + 1 {
        m + m / 2
    } else {
        m + 1
    }
}

/// The cluster sizes from `m` on whose double is below `n`.
pub open spec fn allan_sizes_from(n: int, m: int) -> Seq<int>
    decreases n - m,
{
    if m >= 1 && 2 * m < n {
        seq![m] + allan_sizes_from(n, allan_next(m))
    } else {
        Seq::empty()
    }
}

/// Cluster sizes for the overlapping Allan deviation of `n` samples: 1, then
/// each the larger of one more and half as many again (rounded down), while
/// twice the size is below `n`.
pub fn allan_sizes(n: usize) -> (r: Vec<usize>)
    ensures
        r@.map_values(|x: usize| x as int) == allan_sizes_from(n as int, 1),
{
    let mut r: Vec<usize> = Vec::new();
    let mut m: usize = 1;
    while n > 0 && m <= (n - 1) / 2
        invariant
            m >= 1,
            m <= n + 1,
            r@.map_values(|x: usize| x as int) + allan_sizes_from(n as int, m as int)
                == allan_sizes_from(n as int, 1),
        decreases n - m,
    {
        let ghost before = r@;
        r.push(m);
        let grown = m + m / 2;
        let next = if grown > m + 1 {
            grown
        } else {
            m + 1
        };
        proof {
            assert(r@.map_values(|x: usize| x as int) =~= before.map_values(|x: usize| x as int)
                + seq![m as int]);
        }
        m = next;
    }
    assert(allan_sizes_from(n as int, m as int) =~= Seq::<int>::empty());
    r
}

/// The next cluster size after `m` on the logarithmic grid: half as many
/// again, rounded up, and at least one more.
pub open spec fn log_next(m: int) -> int {
    if m + (m + 1) / 2 > m + 1 {
        m + (m + 1) / 2
    } else {
        m + 1
    }
}

/// The cluster sizes from `m` on while `n` exceeds twice the size.
pub open spec fn log_sizes_from(n: int, m: int) -> Seq<int>
    decreases n - m,
{
    if m >= 1 && n > 2 * m {
        seq![m] + log_sizes_from(n, log_next(m))
    } else {
        Seq::empty()
    }
}

/// The sizes from `m` on start at `m`, stay at or above it, leave at least one
/// overlapping term (`n > 2 * size`), grow by a factor between 1.5 and 2 from
/// each to the next, and so strictly increase; there are none exactly when
/// `n <= 2 * m`.
proof fn lemma_log_sizes_from(n: int, m: int)
    requires
        m >= 1,
    ensures
        ({
            let s = log_sizes_from(n, m);
            &&& (s.len() == 0 <==> n <= 2 * m)
            &&& s.len() > 0 ==> s[0] == m
            &&& forall|i: int| 0 <= i < s.len() ==> m <= #[trigger] s[i] && n > 2 * s[i]
            &&& forall|i: int|
                0 <= i < s.len() - 1 ==> 3 * #[trigger] s[i] <= 2 * s[i + 1] && s[i + 1] <= 2 * s[i]
            &&& forall|i: int, j: int| 0 <= i < j < s.len() ==> #[trigger] s[i] < #[trigger] s[j]
        }),
    decreases n - m,
{
    let s = log_sizes_from(n, m);
    if n > 2 * m {
        let k = log_next(m);
        assert(3 * m <= 2 * k && k <= 2 * m);
        lemma_log_sizes_from(n, k);
        let rest = log_sizes_from(n, k);
        assert(s == seq![m] + rest);
        assert forall|i: int| 0 <= i < s.len() - 1 implies 3 * #[trigger] s[i] <= 2 * s[i + 1] && s[i
            + 1] <= 2 * s[i] by {
            if i == 0 {
                assert(s[1] == rest[0]);
            } else {
                assert(s[i] == rest[i - 1] && s[i + 1] == rest[i]);
            }
        }
        assert forall|i: int, j: int| 0 <= i < j < s.len() implies #[trigger] s[i] < #[trigger] s[j] by {
            assert(s[j] == rest[j - 1]);
            if i > 0 {
                assert(s[i] == rest[i - 1]);
            }
        }
        assert forall|i: int| 0 <= i < s.len() implies m <= #[trigger] s[i] && n > 2 * s[i] by {
            if i > 0 {
                assert(s[i] == rest[i - 1]);
            }
        }
    }
}

/// The logarithmic cluster sizes for `n` samples are strictly increasing (so
/// no size repeats), start at 1, each leaves at least one overlapping term
/// (`n > 2 * size`), and each is between 1.5 and 2 times the one before; there
/// are none exactly when `n <= 2`.
pub proof fn lemma_cluster_sizes_law(n: int)
    ensures
        ({
            let s = log_sizes_from(n, 1);
            &&& (s.len() == 0 <==> n <= 2)
            &&& n >= 3 ==> s[0] == 1
            &&& forall|i: int| 0 <= i < s.len() ==> n > 2 * #[trigger] s[i]
            &&& forall|i: int|
                0 <= i < s.len() - 1 ==> 3 * #[trigger] s[i] <= 2 * s[i + 1] && s[i + 1] <= 2 * s[i]
            &&& forall|i: int, j: int| 0 <= i < j < s.len() ==> #[trigger] s[i] < #[trigger] s[j]
        }),
{
    lemma_log_sizes_from(n, 1);
}

/// Logarithmically spaced cluster sizes for `n` samples: 1, then each half
/// as many again rounded up (at least one more), while `n` exceeds twice the
/// size; strictly increasing, so no size repeats.
pub fn cluster_sizes_log(n: usize) -> (out: Vec<usize>)
    ensures
        out@.map_values(|x: usize| x as int) == log_sizes_from(n as int, 1),
{
    let mut out: Vec<usize> = Vec::new();
    let mut m: usize = 1;
    while n > 0 && m <= (n - 1) / 2
        invariant
            m >= 1,
            m <= n + 1,
            out@.len() > 0 ==> out@.last() < m,
            out@.map_values(|x: usize| x as int) + log_sizes_from(n as int, m as int)
                == log_sizes_from(n as int, 1),
        decreases n - m,
    {
        let ghost before = out@;
        let last_differs = out.len() == 0 || out[out.len() - 1] != m;
        if last_differs {
            out.push(m);
        }
        let grown = m + (m + 1) / 2;
        let next = if grown > m + 1 {
            grown
        } else {
            m + 1
        };
        proof {
            assert(out@.map_values(|x: usize| x as int) =~= before.map_values(|x: usize| x as int)
                + seq![m as int]);
        }
        m = next;
    }
    assert(log_sizes_from(n as int, m as int) =~= Seq::<int>::empty());
    out
}

/// A face of the six-face calibration: an axis and its sign.
#[derive(Clone, Copy, Debug, PartialEq, Eq, Structural)]
pub enum SignedAxis {
    PosX,
    NegX,
    PosY,
    NegY,
    PosZ,
    NegZ,
}

impl SignedAxis {
    /// The axis: 0 for X, 1 for Y, 2 for Z.
    pub fn axis_index(self) -> (i: usize)
        ensures
            i == match self {
                SignedAxis::PosX | SignedAxis::NegX => 0usize,
                SignedAxis::PosY | SignedAxis::NegY => 1usize,
                SignedAxis::PosZ | SignedAxis::NegZ => 2usize,
            },
    {
        match self {
            SignedAxis::PosX | SignedAxis::NegX => 0,
            SignedAxis::PosY | SignedAxis::NegY => 1,
            SignedAxis::PosZ | SignedAxis::NegZ => 2,
        }
    }

    /// Whether the face points along the positive axis.
    pub fn is_positive(self) -> (r: bool)
        ensures
            r == (self is PosX || self is PosY || self is PosZ),
    {
        match self {
            SignedAxis::PosX | SignedAxis::PosY | SignedAxis::PosZ => true,
            _ => false,
        }
    }
}

/// Where an analysis takes its sample times from.
#[derive(Clone, Copy, Debug, PartialEq, Eq, Structural)]
pub enum TimingSource {
    TrustedTimestamps,
    NominalRateAssumed,
}

/// The status of a validation verdict.
#[derive(Clone, Copy, Debug, PartialEq, Eq, Structural)]
pub enum VerdictStatus {
    Pass,
    Fail,
    Warn,
    Unavailable,
    InsufficientData,
}

/// The verdicts that judge the sensor itself rather than the capture: the
/// stationary fraction, the accelerometer norm and the gyroscope statistics.
pub open spec fn physical_verdict(name: Seq<char>) -> bool {
    ||| name == "stationary_fraction"@
    ||| name == "accel_norm_mean_error_g"@
    ||| name == "accel_norm_rms_error_g"@
    ||| name == "accel_norm_std_g"@
    ||| name == "gyro_combined_rms_dps"@
    ||| name == "gyro_x_bias_abs_dps"@
    ||| name == "gyro_y_bias_abs_dps"@
    ||| name == "gyro_z_bias_abs_dps"@
    ||| name == "gyro_x_noise_std_dps"@
    ||| name == "gyro_y_noise_std_dps"@
    ||| name == "gyro_z_noise_std_dps"@
}

/// Whether `s` is `lit`.
pub fn str_is(s: &str, lit: &str) -> (r: bool)
    ensures
        r == (s@ == lit@),
{
    let a = chars_of(s);
    let b = chars_of(lit);
    assert(a@.subrange(0, a@.len() as int) =~= a@);
    crate::fields::slice_eq(&a, 0, a.len(), &b)
}

/// Whether the verdict named `name` judges the sensor itself.
pub fn is_physical_verdict(name: &str) -> (r: bool)
    ensures
        r == physical_verdict(name@),
{
    str_is(name, "stationary_fraction") || str_is(name, "accel_norm_mean_error_g") || str_is(
        name,
        "accel_norm_rms_error_g",
    ) || str_is(name, "accel_norm_std_g") || str_is(name, "gyro_combined_rms_dps") || str_is(
        name,
        "gyro_x_bias_abs_dps",
    ) || str_is(name, "gyro_y_bias_abs_dps") || str_is(name, "gyro_z_bias_abs_dps") || str_is(
        name,
        "gyro_x_noise_std_dps",
    ) || str_is(name, "gyro_y_noise_std_dps") || str_is(name, "gyro_z_noise_std_dps")
}

/// Whether some physical verdict among `verdicts` (name and status) failed;
/// failures of the capture itself, such as too few samples, do not count.
pub fn physical_thresholds_failed(verdicts: &[(&str, VerdictStatus)]) -> (r: bool)
    ensures
        r == exists|i: int|
            0 <= i < verdicts@.len() && (#[trigger] verdicts@[i]).1 == VerdictStatus::Fail
                && physical_verdict(verdicts@[i].0@),
{
    let mut i: usize = 0;
    while i < verdicts.len()
        invariant
            i <= verdicts@.len(),
            forall|j: int|
                0 <= j < i ==> !((#[trigger] verdicts@[j]).1 == VerdictStatus::Fail
                    && physical_verdict(verdicts@[j].0@)),
        decreases verdicts@.len() - i,
    {
        let (name, status) = verdicts[i];
        if status == VerdictStatus::Fail && is_physical_verdict(name) {
            assert(verdicts@[i as int].1 == VerdictStatus::Fail && physical_verdict(
                verdicts@[i as int].0@,
            ));
            return true;
        }
        i = i + 1;
    }
    false
}

/// The missing sequence numbers between consecutive samples of `s`: for
/// each step up by more than one, the numbers skipped.
pub open spec fn sequence_gaps(s: Seq<u64>) -> int
    decreases s.len(),
{
    if s.len() < 2 {
        0
    } else {
        let a = s[s.len() - 2];
        let b = s.last();
        sequence_gaps(s.drop_last()) + if b > a {
            b - a - 1
        } else {
            0
        }
    }
}

/// The steps of `s` that do not go up: repeated or reordered numbers.
pub open spec fn sequence_setbacks(s: Seq<u64>) -> int
    decreases s.len(),
{
    if s.len() < 2 {
        0
    } else {
        sequence_setbacks(s.drop_last()) + if s.last() <= s[s.len() - 2] {
            1int
        } else {
            0
        }
    }
}

/// Every step of `s` goes strictly up.
pub open spec fn strictly_increasing(s: Seq<u64>) -> bool {
    forall|i: int| 0 < i < s.len() ==> #[trigger] s[i - 1] < s[i]
}

/// The setbacks of a run: none exactly when every step goes strictly up, so a
/// repeated or lower number always counts; one for a pair of numbers exactly
/// when the second is not above the first; and those of two runs sent one
/// after the other add up, with the step between them counted like a pair.
pub proof fn lemma_setbacks_law(s: Seq<u64>, t: Seq<u64>, a: u64, b: u64)
    ensures
        (sequence_setbacks(s) == 0) <==> strictly_increasing(s),
        sequence_setbacks(s) >= 0,
        sequence_setbacks(seq![a, b]) == if b <= a {
            1int
        } else {
            0int
        },
        s.len() > 0 && t.len() > 0 ==> sequence_setbacks(s + t) == sequence_setbacks(s)
            + sequence_setbacks(t) + sequence_setbacks(seq![s.last(), t[0]]),
{
    lemma_setbacks_zero(s);
    if s.len() > 0 && t.len() > 0 {
        lemma_setbacks_concat(s, t);
    }
    let p = seq![a, b];
    assert(p.drop_last() =~= seq![a]);
    assert(sequence_setbacks(seq![a]) == 0);
    assert(p.last() == b && p[p.len() - 2] == a);
}

/// The skipped numbers of a run: for a pair, the numbers strictly between
/// them when the second is higher, none otherwise; those of two runs sent one
/// after the other add up, with the step between them counted like a pair;
/// and for a run that goes strictly up they are all the numbers from its first
/// to its last that it does not hold.
pub proof fn lemma_gaps_law(s: Seq<u64>, t: Seq<u64>, a: u64, b: u64)
    ensures
        sequence_gaps(seq![a, b]) == if b > a {
            b - a - 1
        } else {
            0int
        },
        s.len() > 0 && t.len() > 0 ==> sequence_gaps(s + t) == sequence_gaps(s) + sequence_gaps(t)
            + sequence_gaps(seq![s.last(), t[0]]),
        s.len() > 0 && strictly_increasing(s) ==> sequence_gaps(s) == s.last() - s[0] - (s.len() - 1),
{
    let p = seq![a, b];
    assert(p.drop_last() =~= seq![a]);
    assert(sequence_gaps(seq![a]) == 0);
    assert(p.last() == b && p[p.len() - 2] == a);
    if s.len() > 0 && t.len() > 0 {
        lemma_gaps_concat(s, t);
    }
    if s.len() > 0 && strictly_increasing(s) {
        lemma_gaps_increasing(s);
    }
}

/// The skipped numbers of two runs joined.
proof fn lemma_gaps_concat(s: Seq<u64>, t: Seq<u64>)
    requires
        s.len() > 0,
        t.len() > 0,
    ensures
        sequence_gaps(s + t) == sequence_gaps(s) + sequence_gaps(t) + sequence_gaps(
            seq![s.last(), t[0]],
        ),
    decreases t.len(),
{
    let j = seq![s.last(), t[0]];
    let st = s + t;
    assert(j.drop_last() =~= seq![s.last()]);
    assert(sequence_gaps(seq![s.last()]) == 0);
    assert(j.last() == t[0] && j[j.len() - 2] == s.last());
    if t.len() == 1 {
        assert(st.drop_last() =~= s);
        assert(sequence_gaps(t) == 0);
        assert(st.last() == t[0] && st[st.len() - 2] == s.last());
    } else {
        let u = t.drop_last();
        lemma_gaps_concat(s, u);
        assert(st.drop_last() =~= s + u);
        assert(u[0] == t[0]);
        assert(st.last() == t.last() && st[st.len() - 2] == t[t.len() - 2]);
    }
}

/// A run going strictly up skips what lies between its ends and is not in it.
proof fn lemma_gaps_increasing(s: Seq<u64>)
    requires
        s.len() > 0,
        strictly_increasing(s),
    ensures
        sequence_gaps(s) == s.last() - s[0] - (s.len() - 1),
    decreases s.len(),
{
    if s.len() >= 2 {
        let p = s.drop_last();
        assert forall|i: int| 0 < i < p.len() implies #[trigger] p[i - 1] < p[i] by {
            assert(s[i - 1] < s[i]);
        }
        lemma_gaps_increasing(p);
        let k = s.len() - 1;
        assert(s[k - 1] < s[k]);
        assert(p.last() == s[k - 1] && p[0] == s[0]);
    }
}

/// No setback exactly when the run goes strictly up.
proof fn lemma_setbacks_zero(s: Seq<u64>)
    ensures
        (sequence_setbacks(s) == 0) <==> strictly_increasing(s),
        sequence_setbacks(s) >= 0,
    decreases s.len(),
{
    if s.len() >= 2 {
        let p = s.drop_last();
        lemma_setbacks_zero(p);
        if strictly_increasing(s) {
            assert forall|i: int| 0 < i < p.len() implies #[trigger] p[i - 1] < p[i] by {
                assert(s[i - 1] < s[i]);
            }
            let k = s.len() - 1;
            assert(s[k - 1] < s[k]);
        }
        if sequence_setbacks(s) == 0 {
            assert forall|i: int| 0 < i < s.len() implies #[trigger] s[i - 1] < s[i] by {
                if i < s.len() - 1 {
                    assert(p[i - 1] < p[i]);
                }
            }
        }
    }
}

/// The setbacks of two runs joined.
proof fn lemma_setbacks_concat(s: Seq<u64>, t: Seq<u64>)
    requires
        s.len() > 0,
        t.len() > 0,
    ensures
        sequence_setbacks(s + t) == sequence_setbacks(s) + sequence_setbacks(t) + sequence_setbacks(
            seq![s.last(), t[0]],
        ),
    decreases t.len(),
{
    let j = seq![s.last(), t[0]];
    let st = s + t;
    assert(j.drop_last() =~= seq![s.last()]);
    assert(sequence_setbacks(seq![s.last()]) == 0);
    assert(j.last() == t[0] && j[j.len() - 2] == s.last());
    if t.len() == 1 {
        assert(st.drop_last() =~= s);
        assert(sequence_setbacks(t) == 0);
        assert(st.last() == t[0] && st[st.len() - 2] == s.last());
    } else {
        let u = t.drop_last();
        lemma_setbacks_concat(s, u);
        assert(st.drop_last() =~= s + u);
        assert(u[0] == t[0]);
        assert(st.last() == t.last() && st[st.len() - 2] == t[t.len() - 2]);
    }
}

/// How continuous a run of sequence numbers is.
#[derive(Clone, Copy, Debug, PartialEq, Eq)]
pub struct SequenceContinuity {
    /// The numbers skipped over all steps up.
    pub gaps: u128,
    /// The steps that repeat or go back.
    pub setbacks: usize,
}

/// Counts the skipped numbers and the steps that do not go up in `seqs`.
pub fn sequence_continuity(seqs: &[u64]) -> (r: SequenceContinuity)
    ensures
        r.gaps == sequence_gaps(seqs@),
        r.setbacks == sequence_setbacks(seqs@),
{
    let mut gaps: u128 = 0;
    let mut setbacks: usize = 0;
    if seqs.len() < 2 {
        return SequenceContinuity { gaps, setbacks };
    }
    let mut i: usize = 1;
    assert(seqs@.take(1).len() < 2);
    while i < seqs.len()
        invariant
            1 <= i <= seqs@.len(),
            gaps == sequence_gaps(seqs@.take(i as int)),
            setbacks == sequence_setbacks(seqs@.take(i as int)),
            gaps <= (i - 1) * 0x1_0000_0000_0000_0000,
            setbacks <= i - 1,
        decreases seqs@.len() - i,
    {
        let a = seqs[i - 1];
        let b = seqs[i];
        let ghost t = seqs@.take(i + 1);
        assert(t.drop_last() =~= seqs@.take(i as int));
        assert(t[t.len() - 2] == a && t.last() == b);
        if b > a {
            assert((i - 1) * 0x1_0000_0000_0000_0000 + 0x1_0000_0000_0000_0000 <= usize::MAX as int
                * 0x1_0000_0000_0000_0000) by (nonlinear_arith)
                requires
                    i <= usize::MAX,
            ;
            gaps = gaps + (b - a - 1) as u128;
        } else {
            setbacks = setbacks + 1;
        }
        i = i + 1;
    }
    assert(seqs@.take(seqs@.len() as int) =~= seqs@);
    SequenceContinuity { gaps, setbacks }
}

} // verus!
