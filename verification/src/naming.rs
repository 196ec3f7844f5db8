//! The naming engine: a filename is matched against a pattern with capture
//! groups; group 1 becomes the derived directory label, and a display name is
//! rendered by substituting the template's `{}` placeholders, left to right,
//! with the captured groups picked by the fill-order list.
//!
//! Pattern matching itself is done by the `regex` crate behind trusted
//! wrappers; everything downstream of the captured groups (placeholder
//! counting, template rendering, fill-order parsing, configuration
//! validation) is verified.

use vstd::prelude::*;

verus! {

/// Whether the pattern text compiles as a regular expression; the result of
/// `regex::Regex::new` on it, which depends on the pattern text alone.
pub uninterp spec fn pattern_ok(pattern: Seq<char>) -> bool;

/// The number of capture groups of the pattern, the implicit whole-match
/// group included; what `regex::Regex::captures_len` returns, which depends
/// on the pattern text alone.
pub uninterp spec fn group_count_of(pattern: Seq<char>) -> nat;

/// The capture groups of the first match of the pattern in the text, group 0
/// being the whole match and a group that did not participate in the match
/// standing as the empty string; `None` when the text does not match. What
/// `regex::Regex::captures` returns, which depends on the pattern and the
/// text alone.
pub uninterp spec fn captures_of(pattern: Seq<char>, text: Seq<char>) -> Option<Seq<Seq<char>>>;

/// Relies on `regex::Regex::new`: whether a pattern compiles depends on the
/// pattern text alone.
#[verifier::external_body]
pub(crate) fn pattern_is_valid(pattern: &str) -> (r: bool)
    ensures
        r == pattern_ok(pattern@),
{
    regex::Regex::new(pattern).is_ok()
}

/// Relies on `regex::Regex::captures_len`: the number of capture groups of a
/// pattern, the implicit whole-match group included, depends on the pattern
/// text alone and is at least one.
#[verifier::external_body]
pub(crate) fn pattern_group_count(pattern: &str) -> (r: usize)
    requires
        pattern_ok(pattern@),
    ensures
        r == group_count_of(pattern@),
        r >= 1,
{
    match regex::Regex::new(pattern) {
        Ok(re) => re.captures_len(),
        Err(_) => 1,
    }
}

/// Relies on `regex::Regex::captures` (after `regex::Regex::new` on the same
/// pattern): the capture groups of the first match depend on the pattern and
/// the text alone, and `regex::Captures::len` equals the pattern's
/// `captures_len`. A group that did not participate in the match is handed
/// back as the empty string.
#[verifier::external_body]
pub(crate) fn capture_groups(pattern: &str, text: &str) -> (r: Option<Vec<String>>)
    requires
        pattern_ok(pattern@),
    ensures
        r is Some <==> captures_of(pattern@, text@) is Some,
        r matches Some(g) ==> {
            &&& g@.map_values(|s: String| s@) == captures_of(pattern@, text@)->Some_0
            &&& g@.len() == group_count_of(pattern@)
        },
{
    let re = match regex::Regex::new(pattern) {
        Ok(re) => re,
        Err(_) => return None,
    };
    let caps = re.captures(text)?;
    let mut groups = Vec::with_capacity(caps.len());
    for i in 0..caps.len() {
        groups.push(caps.get(i).map_or(String::new(), |m| m.as_str().to_string()));
    }
    Some(groups)
}

/// How many `{}` placeholders the template holds, scanning left to right.
pub open spec fn placeholder_count(template: Seq<char>) -> nat
    decreases template.len(),
{
    if template.len() >= 2 && template[0] == '{' && template[1] == '}' {
        1 + placeholder_count(template.skip(2))
    } else if template.len() >= 1 {
        placeholder_count(template.skip(1))
    } else {
        0
    }
}

/// The rendered display name: the template with each `{}` placeholder, left
/// to right, replaced by the captured group picked by the corresponding
/// fill-order entry. A fill-order entry out of the groups' range, or a
/// placeholder beyond the fill-order list, renders as nothing; a valid
/// configuration rules both out.
pub open spec fn render_spec(template: Seq<char>, fill: Seq<usize>, groups: Seq<Seq<char>>) -> Seq<
    char,
>
    decreases template.len(),
{
    if template.len() >= 2 && template[0] == '{' && template[1] == '}' && fill.len() >= 1 {
        let piece = if fill[0] < groups.len() {
            groups[fill[0] as int]
        } else {
            Seq::empty()
        };
        piece + render_spec(template.skip(2), fill.skip(1), groups)
    } else if template.len() >= 1 {
        seq![template[0]] + render_spec(template.skip(1), fill, groups)
    } else {
        Seq::empty()
    }
}

/// Counts the `{}` placeholders of the template.
pub fn count_placeholders(template: &str) -> (r: usize)
    ensures
        r == placeholder_count(template@),
{
    let len = template.unicode_len();
    let mut i: usize = 0;
    let mut count: usize = 0;
    proof {
        assert(template@.skip(0) =~= template@);
    }
    while i < len
        invariant
            len == template@.len(),
            i <= len,
            count <= i,
            count + placeholder_count(template@.skip(i as int)) == placeholder_count(template@),
        decreases len - i,
    {
        let ghost rest = template@.skip(i as int);
        if i + 1 < len && template.get_char(i) == '{' && template.get_char(i + 1) == '}' {
            proof {
                assert(rest.skip(2) =~= template@.skip(i + 2));
            }
            count = count + 1;
            i = i + 2;
        } else {
            proof {
                assert(rest.skip(1) =~= template@.skip(i + 1));
                if rest.len() >= 2 && rest[0] == '{' && rest[1] == '}' {
                    assert(template@[i as int] == '{' && template@[i + 1] == '}');
                }
            }
            i = i + 1;
        }
    }
    count
}

/// Renders the display name: substitutes each `{}` placeholder of the
/// template, left to right, with the group picked by the corresponding
/// fill-order entry.
pub fn render_name(template: &str, fill_order: &Vec<usize>, groups: &Vec<String>) -> (r: String)
    ensures
        r@ == render_spec(template@, fill_order@, groups@.map_values(|s: String| s@)),
{
    let ghost gviews = groups@.map_values(|s: String| s@);
    let len = template.unicode_len();
    let mut i: usize = 0;
    let mut k: usize = 0;
    let mut out = String::new();
    proof {
        assert(template@.skip(0) =~= template@);
        assert(fill_order@.skip(0) =~= fill_order@);
        assert(out@ + render_spec(template@, fill_order@, gviews) =~= render_spec(
            template@,
            fill_order@,
            gviews,
        ));
    }
    while i < len
        invariant
            len == template@.len(),
            i <= len,
            k <= fill_order@.len(),
            gviews == groups@.map_values(|s: String| s@),
            out@ + render_spec(template@.skip(i as int), fill_order@.skip(k as int), gviews)
                == render_spec(template@, fill_order@, gviews),
        decreases len - i,
    {
        let ghost rest = template@.skip(i as int);
        let ghost fill_rest = fill_order@.skip(k as int);
        if i + 1 < len && template.get_char(i) == '{' && template.get_char(i + 1) == '}' && k
            < fill_order.len() {
            proof {
                assert(rest.skip(2) =~= template@.skip(i + 2));
                assert(fill_rest.skip(1) =~= fill_order@.skip(k + 1));
                assert(fill_rest[0] == fill_order@[k as int]);
            }
            let g = fill_order[k];
            if g < groups.len() {
                proof {
                    assert(gviews[g as int] == groups@[g as int]@);
                }
                out.append(groups[g].as_str());
            }
            k = k + 1;
            i = i + 2;
        } else {
            proof {
                assert(rest.skip(1) =~= template@.skip(i + 1));
                if rest.len() >= 2 && rest[0] == '{' && rest[1] == '}' && fill_rest.len() >= 1 {
                    assert(template@[i as int] == '{' && template@[i + 1] == '}');
                    assert(k < fill_order@.len());
                }
                assert(seq![rest[0]] =~= template@.subrange(i as int, i + 1));
            }
            let piece = template.substring_char(i, i + 1);
            out.append(piece);
            i = i + 1;
        }
    }
    proof {
        assert(template@.skip(len as int) =~= Seq::<char>::empty());
        assert(out@ =~= out@ + render_spec(
            template@.skip(len as int),
            fill_order@.skip(k as int),
            gviews,
        ));
    }
    out
}

/// Whether the character is a decimal digit.
pub open spec fn is_digit(c: char) -> bool {
    48 <= c as int <= 57
}

/// The value of a decimal digit.
pub open spec fn digit_val(c: char) -> nat {
    (c as int - 48) as nat
}

/// Whether every character of the sequence is a decimal digit.
pub open spec fn all_digits(s: Seq<char>) -> bool {
    forall|j: int| 0 <= j < s.len() ==> is_digit(#[trigger] s[j])
}

/// The numeric value of a digit sequence read in base ten.
pub open spec fn num_val(s: Seq<char>) -> nat
    decreases s.len(),
{
    if s.len() == 0 {
        0
    } else {
        num_val(s.drop_last()) * 10 + digit_val(s.last())
    }
}

/// The number a token denotes: defined when the token is nonempty, all
/// digits, and its value fits the machine word.
pub open spec fn parse_num_spec(s: Seq<char>) -> Option<usize> {
    if s.len() >= 1 && all_digits(s) && num_val(s) <= usize::MAX {
        Some(num_val(s) as usize)
    } else {
        None
    }
}

/// The index of the first comma, or the sequence's length if it has none.
pub open spec fn first_comma(s: Seq<char>) -> nat
    decreases s.len(),
{
    if s.len() == 0 {
        0
    } else if s[0] == ',' {
        0
    } else {
        1 + first_comma(s.skip(1))
    }
}

/// The fill-order list a comma-separated string denotes: the numbers of its
/// tokens, or nothing if any token is not a plain decimal number.
pub open spec fn parse_fill_spec(s: Seq<char>) -> Option<Seq<usize>>
    decreases s.len(),
{
    let i = first_comma(s) as int;
    if i >= s.len() {
        match parse_num_spec(s) {
            None => None,
            Some(n) => Some(seq![n]),
        }
    } else {
        match parse_num_spec(s.take(i)) {
            None => None,
            Some(n) => match parse_fill_spec(s.skip(i + 1)) {
                None => None,
                Some(v) => Some(seq![n] + v),
            },
        }
    }
}

proof fn lemma_first_comma_in_range(s: Seq<char>)
    ensures
        first_comma(s) <= s.len(),
        first_comma(s) < s.len() ==> s[first_comma(s) as int] == ',',
        forall|j: int| 0 <= j < first_comma(s) ==> s[j] != ',',
    decreases s.len(),
{
    if s.len() > 0 && s[0] != ',' {
        lemma_first_comma_in_range(s.skip(1));
        assert forall|j: int| 0 <= j < first_comma(s) implies s[j] != ',' by {
            if j > 0 {
                assert(s.skip(1)[j - 1] != ',');
            }
        }
    }
}

proof fn lemma_first_comma_is(s: Seq<char>, m: int)
    requires
        0 <= m <= s.len(),
        forall|j: int| 0 <= j < m ==> s[j] != ',',
        m < s.len() ==> s[m] == ',',
    ensures
        first_comma(s) == m,
    decreases m,
{
    if m > 0 {
        let t = s.skip(1);
        assert forall|j: int| 0 <= j < m - 1 implies t[j] != ',' by {
            assert(t[j] == s[j + 1]);
        }
        assert(m - 1 < t.len() ==> t[m - 1] == ',');
        lemma_first_comma_is(t, m - 1);
    }
}

proof fn lemma_num_val_take(s: Seq<char>, m: int)
    requires
        0 <= m <= s.len(),
    ensures
        num_val(s.take(m)) <= num_val(s),
    decreases s.len(),
{
    if m == s.len() {
        assert(s.take(m) =~= s);
    } else {
        assert(s.drop_last().take(m) =~= s.take(m));
        lemma_num_val_take(s.drop_last(), m);
    }
}

/// Parses a nonempty all-digit token into a number, or reports that the
/// token is no such number.
pub fn parse_num(token: &str) -> (r: Option<usize>)
    ensures
        r == parse_num_spec(token@),
{
    let len = token.unicode_len();
    if len == 0 {
        return None;
    }
    let mut idx: usize = 0;
    let mut acc: usize = 0;
    proof {
        assert(token@.take(0) =~= Seq::<char>::empty());
    }
    while idx < len
        invariant
            len == token@.len(),
            idx <= len,
            acc == num_val(token@.take(idx as int)),
            forall|j: int| 0 <= j < idx ==> is_digit(#[trigger] token@[j]),
        decreases len - idx,
    {
        let c = token.get_char(idx);
        let u = c as u32;
        if u < 48 || u > 57 {
            proof {
                assert(!all_digits(token@));
            }
            return None;
        }
        let d = (u - 48) as usize;
        proof {
            assert(token@.take(idx + 1).drop_last() =~= token@.take(idx as int));
            assert(token@.take(idx + 1).last() == token@[idx as int]);
            assert(digit_val(token@[idx as int]) == d);
        }
        let next = match acc.checked_mul(10) {
            Some(x) => x.checked_add(d),
            None => None,
        };
        match next {
            None => {
                proof {
                    assert(num_val(token@.take(idx + 1)) > usize::MAX);
                    lemma_num_val_take(token@, idx + 1);
                }
                return None;
            },
            Some(x) => {
                acc = x;
            },
        }
        idx = idx + 1;
    }
    proof {
        assert(token@.take(len as int) =~= token@);
    }
    Some(acc)
}

/// Parses a comma-separated fill-order list, or reports that it is
/// malformed.
pub fn parse_fill_order(args: &str) -> (r: Option<Vec<usize>>)
    ensures
        match r {
            Some(v) => parse_fill_spec(args@) == Some(v@),
            None => parse_fill_spec(args@) is None,
        },
{
    let len = args.unicode_len();
    let mut p: usize = 0;
    let mut out: Vec<usize> = Vec::new();
    proof {
        assert(args@.skip(0) =~= args@);
    }
    loop
        invariant
            len == args@.len(),
            p <= len,
            match parse_fill_spec(args@.skip(p as int)) {
                None => parse_fill_spec(args@) is None,
                Some(v) => parse_fill_spec(args@) == Some(out@ + v),
            },
        decreases len - p,
    {
        let ghost rem = args@.skip(p as int);
        // scan for the next comma
        let mut j: usize = p;
        while j < len
            invariant
                len == args@.len(),
                p <= j <= len,
                forall|t: int| p <= t < j ==> args@[t] != ',',
            ensures
                p <= j <= len,
                forall|t: int| p <= t < j ==> args@[t] != ',',
                j < len ==> args@[j as int] == ',',
            decreases len - j,
        {
            if args.get_char(j) == ',' {
                break ;
            }
            j = j + 1;
        }
        proof {
            assert forall|t: int| 0 <= t < j - p implies rem[t] != ',' by {
                assert(rem[t] == args@[t + p]);
            }
            assert(j < len ==> rem[j - p] == ',');
            lemma_first_comma_is(rem, j - p);
        }
        let token = args.substring_char(p, j);
        proof {
            assert(token@ =~= rem.take(j - p));
            if j == len {
                assert(rem.take(j - p) =~= rem);
            }
        }
        let n = match parse_num(token) {
            None => {
                return None;
            },
            Some(n) => n,
        };
        if j == len {
            proof {
                assert(parse_fill_spec(rem) == Some(seq![n]));
                assert(out@ + seq![n] =~= out@.push(n));
            }
            out.push(n);
            return Some(out);
        }
        proof {
            assert(rem.skip(j - p + 1) =~= args@.skip(j + 1));
            let v0 = parse_fill_spec(args@.skip(j + 1));
            if v0 is Some {
                assert(out@ + (seq![n] + v0->Some_0) =~= out@.push(n) + v0->Some_0);
            }
        }
        out.push(n);
        p = j + 1;
    }
}

/// A configuration error; each aborts the mount before any node is built.
#[derive(Clone, Copy, Debug, PartialEq, Eq, Structural)]
pub enum ConfigError {
    /// The pattern does not compile as a regular expression.
    BadPattern,
    /// The pattern has no capture group, so no classification group exists.
    NoCaptureGroup,
    /// The fill-order list is not a comma-separated list of group indices
    /// between one and the pattern's capture-group count.
    BadFillOrder,
    /// The template's placeholder count differs from the fill-order length.
    PlaceholderMismatch,
}

/// The validated naming configuration: a pattern whose group 1 classifies a
/// filename, a display-name template, and the fill order of its placeholders.
pub struct NamingConfig {
    pub pattern: String,
    pub template: String,
    pub fill_order: Vec<usize>,
}

impl NamingConfig {
    /// A well-formed configuration: the pattern compiles and has a capture
    /// group, and the fill order names one in-range group per placeholder.
    pub open spec fn wf(&self) -> bool {
        &&& pattern_ok(self.pattern@)
        &&& group_count_of(self.pattern@) >= 2
        &&& placeholder_count(self.template@) == self.fill_order@.len()
        &&& forall|i: int|
            0 <= i < self.fill_order@.len() ==> 1 <= #[trigger] self.fill_order@[i]
                && self.fill_order@[i] < group_count_of(self.pattern@)
    }
}

/// The outcome of validating a raw configuration: the parsed fill order, or
/// the first error in checking order (pattern, capture group, fill order,
/// placeholder count).
pub open spec fn validate_spec(pattern: Seq<char>, template: Seq<char>, args: Seq<char>) -> Result<
    Seq<usize>,
    ConfigError,
> {
    if !pattern_ok(pattern) {
        Err(ConfigError::BadPattern)
    } else if group_count_of(pattern) < 2 {
        Err(ConfigError::NoCaptureGroup)
    } else {
        match parse_fill_spec(args) {
            None => Err(ConfigError::BadFillOrder),
            Some(fill) => {
                if exists|i: int|
                    0 <= i < fill.len() && !(1 <= #[trigger] fill[i] && fill[i] < group_count_of(
                        pattern,
                    )) {
                    Err(ConfigError::BadFillOrder)
                } else if placeholder_count(template) != fill.len() {
                    Err(ConfigError::PlaceholderMismatch)
                } else {
                    Ok(fill)
                }
            },
        }
    }
}

impl NamingConfig {
    /// Validates a raw configuration: the pattern must compile and hold at
    /// least one capture group, the fill order must be a comma-separated
    /// list of in-range group indices, and the template must hold exactly
    /// one placeholder per fill-order entry.
    pub fn new(file_regex: &str, file_format_string: &str, file_format_string_args: &str) -> (r:
        Result<NamingConfig, ConfigError>)
        ensures
            match r {
                Ok(cfg) => {
                    &&& validate_spec(file_regex@, file_format_string@, file_format_string_args@)
                        == Ok::<_, ConfigError>(cfg.fill_order@)
                    &&& cfg.pattern@ == file_regex@
                    &&& cfg.template@ == file_format_string@
                    &&& cfg.wf()
                },
                Err(e) => validate_spec(file_regex@, file_format_string@, file_format_string_args@)
                    == Err::<Seq<usize>, ConfigError>(e),
            },
    {
        if !pattern_is_valid(file_regex) {
            return Err(ConfigError::BadPattern);
        }
        let group_count = pattern_group_count(file_regex);
        if group_count < 2 {
            return Err(ConfigError::NoCaptureGroup);
        }
        let fill_order = match parse_fill_order(file_format_string_args) {
            None => {
                return Err(ConfigError::BadFillOrder);
            },
            Some(v) => v,
        };
        let mut i: usize = 0;
        while i < fill_order.len()
            invariant
                pattern_ok(file_regex@),
                group_count == group_count_of(file_regex@),
                group_count >= 2,
                parse_fill_spec(file_format_string_args@) == Some(fill_order@),
                forall|j: int|
                    0 <= j < i ==> 1 <= #[trigger] fill_order@[j] && fill_order@[j] < group_count,
            decreases fill_order.len() - i,
        {
            let g = fill_order[i];
            if g < 1 || g >= group_count {
                proof {
                    assert(!(1 <= fill_order@[i as int] && fill_order@[i as int] < group_count_of(
                        file_regex@,
                    )));
                }
                return Err(ConfigError::BadFillOrder);
            }
            i = i + 1;
        }
        if count_placeholders(file_format_string) != fill_order.len() {
            return Err(ConfigError::PlaceholderMismatch);
        }
        Ok(
            NamingConfig {
                pattern: String::from_str(file_regex),
                template: String::from_str(file_format_string),
                fill_order,
            },
        )
    }
}

/// What classification decides for a filename: nothing when the pattern does
/// not match, else the derived directory label (capture group 1) and the
/// rendered display name.
pub open spec fn classify_spec(cfg: NamingConfig, filename: Seq<char>) -> Option<
    (Seq<char>, Seq<char>),
> {
    match captures_of(cfg.pattern@, filename) {
        None => None,
        Some(groups) => Some((groups[1], render_spec(cfg.template@, cfg.fill_order@, groups))),
    }
}

/// A classified filename: the derived directory label and the display name.
pub struct NameMatch {
    pub label: String,
    pub display: String,
}

impl NamingConfig {
    /// Classifies a filename: no match means the file is skipped; a match
    /// yields the derived directory label (capture group 1) and the display
    /// name rendered from the template.
    pub fn classify(&self, filename: &str) -> (r: Option<NameMatch>)
        requires
            self.wf(),
        ensures
            r is Some <==> classify_spec(*self, filename@) is Some,
            r matches Some(m) ==> {
                &&& classify_spec(*self, filename@) matches Some(p)
                &&& m.label@ == p.0
                &&& m.display@ == p.1
            },
    {
        let groups = match capture_groups(self.pattern.as_str(), filename) {
            None => {
                return None;
            },
            Some(g) => g,
        };
        proof {
            assert(groups@.map_values(|s: String| s@).len() == groups@.len());
        }
        let label = groups[1].clone();
        let display = render_name(self.template.as_str(), &self.fill_order, &groups);
        proof {
            let gviews = groups@.map_values(|s: String| s@);
            assert(gviews[1] == groups@[1]@);
        }
        Some(NameMatch { label, display })
    }
}

} // verus!


