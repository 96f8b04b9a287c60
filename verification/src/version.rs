use vstd::prelude::*;

verus! {

// ---------------------------------------------------------------------------
// Semantic versions.
//
// A version is held as its plain parts: the three numeric components plus the
// pre-release and build-metadata identifier strings.  Parsing (the semver
// grammar, including the rules about leading zeroes and allowed identifier
// characters) is done by the semver crate; precedence comparison over the
// parsed parts is implemented and verified here.
// ---------------------------------------------------------------------------

pub struct SemVer {
    pub major: u64,
    pub minor: u64,
    pub patch: u64,
    pub pre: String,
    pub build: String,
}

#[verifier::ext_equal]
pub struct SemVerV {
    pub major: nat,
    pub minor: nat,
    pub patch: nat,
    pub pre: Seq<char>,
    pub build: Seq<char>,
}

impl View for SemVer {
    type V = SemVerV;

    open spec fn view(&self) -> SemVerV {
        SemVerV {
            major: self.major as nat,
            minor: self.minor as nat,
            patch: self.patch as nat,
            pre: self.pre@,
            build: self.build@,
        }
    }
}

impl Clone for SemVer {
    fn clone(&self) -> (r: Self)
        ensures
            r@ == self@,
    {
        SemVer {
            major: self.major,
            minor: self.minor,
            patch: self.patch,
            pre: self.pre.clone(),
            build: self.build.clone(),
        }
    }
}

/// What `semver::Version::parse` makes of a text: `None` where the text is
/// not a valid semantic version, otherwise the parsed parts.
pub uninterp spec fn semver_parse(s: Seq<char>) -> Option<SemVerV>;

/// Relies on `semver::Version::parse`: whether parsing succeeds, and the
/// parsed numeric components and pre-release/build identifiers, depend on the
/// input text alone.
#[verifier::external_body]
fn parse_semver_raw(s: &str) -> (r: Option<SemVer>)
    ensures
        match r {
            Some(v) => semver_parse(s@) == Some(v@),
            None => semver_parse(s@) is None,
        },
{
    match semver::Version::parse(s) {
        Ok(v) => Some(
            SemVer {
                major: v.major,
                minor: v.minor,
                patch: v.patch,
                pre: v.pre.as_str().to_string(),
                build: v.build.as_str().to_string(),
            },
        ),
        Err(_) => None,
    }
}

/// Parse a version text into its parts, `None` where the text is not a valid
/// semantic version.
pub fn parse_version(s: &str) -> (r: Option<SemVer>)
    ensures
        match r {
            Some(v) => semver_parse(s@) == Some(v@),
            None => semver_parse(s@) is None,
        },
{
    parse_semver_raw(s)
}

// ---------------------------------------------------------------------------
// Precedence, as the semver specification defines it:
//   - compare major, minor, patch numerically;
//   - a pre-release version precedes the plain release;
//   - pre-release identifiers (dot-separated) are compared left to right:
//     numeric identifiers numerically, alphanumeric ones lexically in ASCII
//     order, numeric ones before alphanumeric ones; a shorter identifier list
//     that is a prefix of a longer one precedes it.
// Numeric identifiers carry no leading zeroes, so their numeric order is
// their length order, then their lexical order.  Build metadata plays no part
// in precedence.
// ---------------------------------------------------------------------------

pub open spec fn lex_lt(a: Seq<char>, b: Seq<char>) -> bool
    decreases a.len(),
{
    if b.len() == 0 {
        false
    } else if a.len() == 0 {
        true
    } else if a[0] != b[0] {
        a[0] < b[0]
    } else {
        lex_lt(a.drop_first(), b.drop_first())
    }
}

pub open spec fn is_numeric(s: Seq<char>) -> bool {
    s.len() > 0 && forall|i: int| 0 <= i < s.len() ==> '0' <= #[trigger] s[i] <= '9'
}

/// Order of two single pre-release identifiers.
pub open spec fn seg_lt(a: Seq<char>, b: Seq<char>) -> bool {
    if is_numeric(a) && is_numeric(b) {
        a.len() < b.len() || (a.len() == b.len() && lex_lt(a, b))
    } else if is_numeric(a) {
        true
    } else if is_numeric(b) {
        false
    } else {
        lex_lt(a, b)
    }
}

/// Index of the first `.` in `s`, or `s.len()` where there is none.
pub open spec fn first_dot(s: Seq<char>) -> int
    decreases s.len(),
{
    if s.len() == 0 {
        0
    } else if s[0] == '.' {
        0
    } else {
        1 + first_dot(s.drop_first())
    }
}

/// The dot-separated identifiers of a non-empty pre-release or build text.
pub open spec fn split_dots(s: Seq<char>) -> Seq<Seq<char>>
    decreases s.len(),
{
    let i = first_dot(s);
    if 0 <= i < s.len() {
        seq![s.subrange(0, i)] + split_dots(s.subrange(i + 1, s.len() as int))
    } else {
        seq![s]
    }
}

/// Order of two identifier lists.
pub open spec fn segs_lt(a: Seq<Seq<char>>, b: Seq<Seq<char>>) -> bool
    decreases a.len(),
{
    if b.len() == 0 {
        false
    } else if a.len() == 0 {
        true
    } else if a[0] != b[0] {
        seg_lt(a[0], b[0])
    } else {
        segs_lt(a.drop_first(), b.drop_first())
    }
}

/// Order of two pre-release texts; the empty text is the plain release and
/// follows every pre-release.
pub open spec fn pre_lt(a: Seq<char>, b: Seq<char>) -> bool {
    if a.len() == 0 {
        false
    } else if b.len() == 0 {
        true
    } else {
        segs_lt(split_dots(a), split_dots(b))
    }
}

/// Semantic-version precedence.
pub open spec fn version_lt(a: SemVerV, b: SemVerV) -> bool {
    if a.major != b.major {
        a.major < b.major
    } else if a.minor != b.minor {
        a.minor < b.minor
    } else if a.patch != b.patch {
        a.patch < b.patch
    } else {
        pre_lt(a.pre, b.pre)
    }
}

// ---------------------------------------------------------------------------
// Precedence is irreflexive: no version precedes itself.
// ---------------------------------------------------------------------------

pub proof fn lemma_lex_lt_irrefl(a: Seq<char>)
    ensures
        !lex_lt(a, a),
    decreases a.len(),
{
    if a.len() > 0 {
        lemma_lex_lt_irrefl(a.drop_first());
    }
}

pub proof fn lemma_segs_lt_irrefl(a: Seq<Seq<char>>)
    ensures
        !segs_lt(a, a),
    decreases a.len(),
{
    if a.len() > 0 {
        lemma_segs_lt_irrefl(a.drop_first());
    }
}

/// No version precedes itself.
pub proof fn lemma_version_lt_irrefl(a: SemVerV)
    ensures
        !version_lt(a, a),
{
    if a.pre.len() > 0 {
        lemma_segs_lt_irrefl(split_dots(a.pre));
    }
}

// ---------------------------------------------------------------------------
// Executable comparison.
// ---------------------------------------------------------------------------

proof fn lemma_lex_lt_step(a: Seq<char>, b: Seq<char>, i: int)
    requires
        0 <= i < a.len(),
        i < b.len(),
        a.skip(i)[0] == b.skip(i)[0],
    ensures
        lex_lt(a.skip(i), b.skip(i)) == lex_lt(a.skip(i + 1), b.skip(i + 1)),
{
    assert(a.skip(i).drop_first() =~= a.skip(i + 1));
    assert(b.skip(i).drop_first() =~= b.skip(i + 1));
}

#[verifier::loop_isolation(false)]
fn lex_lt_exec(a: &str, b: &str) -> (r: bool)
    ensures
        r == lex_lt(a@, b@),
{
    let a_len = a.unicode_len();
    let b_len = b.unicode_len();
    proof {
        assert(a@.skip(0) =~= a@);
        assert(b@.skip(0) =~= b@);
    }
    let mut i: usize = 0;
    loop
        invariant
            i <= a_len,
            i <= b_len,
            lex_lt(a@, b@) == lex_lt(a@.skip(i as int), b@.skip(i as int)),
        decreases a_len - i,
    {
        proof {
            assert(a@.skip(i as int).len() == a@.len() - i);
            assert(b@.skip(i as int).len() == b@.len() - i);
        }
        if i >= b_len {
            return false;
        }
        if i >= a_len {
            return true;
        }
        let ca = a.get_char(i);
        let cb = b.get_char(i);
        proof {
            assert(a@.skip(i as int)[0] == a@[i as int]);
            assert(b@.skip(i as int)[0] == b@[i as int]);
        }
        if ca != cb {
            return ca < cb;
        }
        proof {
            lemma_lex_lt_step(a@, b@, i as int);
        }
        i += 1;
    }
}

#[verifier::loop_isolation(false)]
fn is_numeric_exec(s: &str) -> (r: bool)
    ensures
        r == is_numeric(s@),
{
    let n = s.unicode_len();
    if n == 0 {
        return false;
    }
    let mut i: usize = 0;
    while i < n
        invariant
            i <= n,
            forall|j: int| 0 <= j < i ==> '0' <= #[trigger] s@[j] <= '9',
        decreases n - i,
    {
        let c = s.get_char(i);
        if c < '0' || c > '9' {
            return false;
        }
        i += 1;
    }
    true
}

fn seg_lt_exec(a: &str, b: &str) -> (r: bool)
    ensures
        r == seg_lt(a@, b@),
{
    let a_num = is_numeric_exec(a);
    let b_num = is_numeric_exec(b);
    if a_num && b_num {
        let a_len = a.unicode_len();
        let b_len = b.unicode_len();
        a_len < b_len || (a_len == b_len && lex_lt_exec(a, b))
    } else if a_num {
        true
    } else if b_num {
        false
    } else {
        lex_lt_exec(a, b)
    }
}

// Splitting on dots.

proof fn lemma_first_dot(s: Seq<char>)
    ensures
        0 <= first_dot(s) <= s.len(),
        forall|j: int| 0 <= j < first_dot(s) ==> s[j] != '.',
        first_dot(s) < s.len() ==> s[first_dot(s)] == '.',
    decreases s.len(),
{
    if s.len() > 0 && s[0] != '.' {
        lemma_first_dot(s.drop_first());
        assert forall|j: int| 0 <= j < first_dot(s) implies s[j] != '.' by {
            if j > 0 {
                assert(s.drop_first()[j - 1] != '.');
            }
        }
        if first_dot(s) < s.len() {
            assert(s.drop_first()[first_dot(s.drop_first())] == '.');
        }
    }
}

proof fn lemma_first_dot_at(s: Seq<char>, i: int)
    requires
        0 <= i <= s.len(),
        forall|j: int| 0 <= j < i ==> s[j] != '.',
        i < s.len() ==> s[i] == '.',
    ensures
        first_dot(s) == i,
    decreases s.len(),
{
    if s.len() > 0 && s[0] != '.' {
        assert forall|j: int| 0 <= j < i - 1 implies s.drop_first()[j] != '.' by {
            assert(s[j + 1] != '.');
        }
        lemma_first_dot_at(s.drop_first(), i - 1);
    }
}

#[verifier::loop_isolation(false)]
fn split_segments(s: &str) -> (r: Vec<String>)
    ensures
        r.deep_view() == split_dots(s@),
        r@.len() >= 1,
    decreases s@.len(),
{
    let n = s.unicode_len();
    let mut i: usize = 0;
    while i < n && s.get_char(i) != '.'
        invariant
            i <= n,
            forall|j: int| 0 <= j < i ==> s@[j] != '.',
        decreases n - i,
    {
        i += 1;
    }
    proof {
        lemma_first_dot_at(s@, i as int);
    }
    if i >= n {
        let whole = s.to_owned();
        let mut out: Vec<String> = Vec::new();
        out.push(whole);
        assert(out.deep_view() =~= split_dots(s@));
        out
    } else {
        let head = s.substring_char(0, i).to_owned();
        let tail = s.substring_char(i + 1, n);
        proof {
            assert(tail@.len() < s@.len());
        }
        let mut rest = split_segments(tail);
        rest.insert(0, head);
        assert(rest.deep_view() =~= split_dots(s@));
        rest
    }
}

proof fn lemma_segs_lt_step(a: Seq<Seq<char>>, b: Seq<Seq<char>>, i: int)
    requires
        0 <= i < a.len(),
        i < b.len(),
        a.skip(i)[0] == b.skip(i)[0],
    ensures
        segs_lt(a.skip(i), b.skip(i)) == segs_lt(a.skip(i + 1), b.skip(i + 1)),
{
    assert(a.skip(i).drop_first() =~= a.skip(i + 1));
    assert(b.skip(i).drop_first() =~= b.skip(i + 1));
}

#[verifier::loop_isolation(false)]
fn segs_lt_exec(a: &Vec<String>, b: &Vec<String>) -> (r: bool)
    ensures
        r == segs_lt(a.deep_view(), b.deep_view()),
{
    let ghost av = a.deep_view();
    let ghost bv = b.deep_view();
    proof {
        assert(av.skip(0) =~= av);
        assert(bv.skip(0) =~= bv);
    }
    let mut i: usize = 0;
    loop
        invariant
            i <= a@.len(),
            i <= b@.len(),
            segs_lt(av, bv) == segs_lt(av.skip(i as int), bv.skip(i as int)),
        decreases a@.len() - i,
    {
        proof {
            assert(av.len() == a@.len());
            assert(bv.len() == b@.len());
            assert(av.skip(i as int).len() == av.len() - i);
            assert(bv.skip(i as int).len() == bv.len() - i);
        }
        if i >= b.len() {
            return false;
        }
        if i >= a.len() {
            return true;
        }
        proof {
            assert(av.skip(i as int)[0] == av[i as int]);
            assert(bv.skip(i as int)[0] == bv[i as int]);
            assert(av[i as int] == a@[i as int]@);
            assert(bv[i as int] == b@[i as int]@);
        }
        let segments_equal: bool = a[i] == b[i];
        if !segments_equal {
            return seg_lt_exec(a[i].as_str(), b[i].as_str());
        }
        proof {
            lemma_segs_lt_step(av, bv, i as int);
        }
        i += 1;
    }
}

fn pre_lt_exec(a: &str, b: &str) -> (r: bool)
    ensures
        r == pre_lt(a@, b@),
{
    if a.unicode_len() == 0 {
        return false;
    }
    if b.unicode_len() == 0 {
        return true;
    }
    let a_segs = split_segments(a);
    let b_segs = split_segments(b);
    segs_lt_exec(&a_segs, &b_segs)
}

/// Whether `a` precedes `b` in semantic-version precedence.
pub fn version_lt_exec(a: &SemVer, b: &SemVer) -> (r: bool)
    ensures
        r == version_lt(a@, b@),
{
    if a.major != b.major {
        a.major < b.major
    } else if a.minor != b.minor {
        a.minor < b.minor
    } else if a.patch != b.patch {
        a.patch < b.patch
    } else {
        pre_lt_exec(self_pre(a), self_pre(b))
    }
}

fn self_pre(v: &SemVer) -> (r: &str)
    ensures
        r@ == v@.pre,
{
    v.pre.as_str()
}

} // verus!
