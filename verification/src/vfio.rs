//! Classification of VFIO-bound PCI devices into advertised resources.
use vstd::prelude::*;

use crate::text::{
    ascii_upper, chars_of, compare_chars, is_alphanumeric_ascii, is_ascii_alphanumeric,
    is_ascii_lowercase, is_trim_char, is_unicode_whitespace, is_whitespace, lemma_lex_asymmetric,
    lemma_lex_irreflexive, lemma_lex_transitive, lemma_trim_bounds, lex_lt, push_char, str_eq,
    string_of, to_upper_ascii, trim_bounds, trim_matching, Order,
};

verus! {

/// How advertised resource names are derived (--resource-naming flag).
#[derive(Clone, Copy, Debug)]
pub enum Naming {
    /// Names come from the RESOURCES table: curated alias rows first,
    /// class-generic fallbacks otherwise.  The default.
    Alias,
    /// Names carry the hardware identity, resolved from the PCI ID database:
    /// "nvidia.com/GH100_H100_SXM5_80GB".  Unknown device ids fall back to
    /// the matching table row's name.
    Sku,
}

/// Name for the text that `<str as Debug>::fmt` writes for `s` (quoted and escaped).
pub uninterp spec fn debug_quoted(s: Seq<char>) -> Seq<char>;

/// `format!("{s:?}")`: the `Debug` rendering of a string slice.
/// Trusted: the result is only tied to `s` through the name `debug_quoted`;
/// the escaping rules of std are left unsaid.
#[verifier::external_body]
fn str_debug(s: &str) -> (r: String)
    ensures
        r@ == debug_quoted(s@),
{
    format!("{s:?}")
}

/// The error `Naming::parse` reports for an unknown mode.
pub open spec fn naming_error(s: Seq<char>) -> Seq<char> {
    "--resource-naming must be alias or sku, got "@ + debug_quoted(s)
}

impl Naming {
    /// Parses the value of `--resource-naming`: exactly "alias" or "sku".
    pub fn parse(s: &str) -> (r: Result<Naming, String>)
        ensures
            s@ == "alias"@ ==> r matches Ok(Naming::Alias),
            s@ == "sku"@ ==> r matches Ok(Naming::Sku),
            s@ != "alias"@ && s@ != "sku"@ ==> (r matches Err(e) && e@ == naming_error(s@)),
    {
        proof {
            reveal_strlit("alias");
            reveal_strlit("sku");
            assert("alias"@.len() != "sku"@.len());
        }
        if str_eq(s, "alias") {
            Ok(Naming::Alias)
        } else if str_eq(s, "sku") {
            Ok(Naming::Sku)
        } else {
            let mut msg = "--resource-naming must be alias or sku, got ".to_owned();
            let quoted = str_debug(s);
            msg.append(quoted.as_str());
            Err(msg)
        }
    }
}

/// Uppercase, with '/' and '.' turned into '_'.
pub open spec fn normalize_char(c: char) -> char {
    if c == '/' || c == '.' {
        '_'
    } else {
        ascii_upper(c)
    }
}

/// The characters `sanitize` keeps.
pub open spec fn is_kept(c: char) -> bool {
    is_ascii_alphanumeric(c) || c == '_'
}

/// Whitespace runs become one '_' before the next non-whitespace character;
/// other characters are kept when `is_kept`, dropped otherwise.  `pending`
/// records a whitespace run not yet emitted.
pub open spec fn collapse(s: Seq<char>, pending: bool) -> Seq<char>
    decreases s.len(),
{
    if s.len() == 0 {
        Seq::empty()
    } else if is_unicode_whitespace(s[0]) {
        collapse(s.drop_first(), true)
    } else {
        (if pending { seq!['_'] } else { Seq::empty() }) + (if is_kept(s[0]) {
            seq![s[0]]
        } else {
            Seq::empty()
        }) + collapse(s.drop_first(), false)
    }
}

/// kubevirt-gpu-device-plugin compatible sanitization of `raw`.
pub open spec fn sanitized(raw: Seq<char>) -> Seq<char> {
    collapse(trim_matching(raw, false).map_values(|c: char| normalize_char(c)), false)
}

/// The characters a sanitized name is made of: ASCII digits, uppercase
/// letters and '_'.
pub open spec fn is_sku_char(c: char) -> bool {
    let u = c as u32;
    ||| 0x30 <= u <= 0x39
    ||| 0x41 <= u <= 0x5a
    ||| c == '_'
}

pub open spec fn all_sku_chars(s: Seq<char>) -> bool {
    forall|i: int| 0 <= i < s.len() ==> is_sku_char(#[trigger] s[i])
}

proof fn lemma_collapse_sku(s: Seq<char>, pending: bool)
    requires
        forall|i: int| 0 <= i < s.len() ==> !is_ascii_lowercase(#[trigger] s[i]),
    ensures
        all_sku_chars(collapse(s, pending)),
    decreases s.len(),
{
    if s.len() > 0 {
        let rest = s.drop_first();
        assert forall|i: int| 0 <= i < rest.len() implies !is_ascii_lowercase(#[trigger] rest[i]) by {
            assert(rest[i] == s[i + 1]);
        }
        lemma_collapse_sku(rest, true);
        lemma_collapse_sku(rest, false);
        if !is_unicode_whitespace(s[0]) {
            assert(!is_ascii_lowercase(s[0]));
            let pre: Seq<char> = if pending { seq!['_'] } else { Seq::empty() };
            let mid: Seq<char> = if is_kept(s[0]) { seq![s[0]] } else { Seq::empty() };
            let tail = collapse(rest, false);
            let out = collapse(s, pending);
            assert(out == pre + mid + tail);
            assert forall|i: int| 0 <= i < out.len() implies is_sku_char(#[trigger] out[i]) by {
                if i < pre.len() {
                    assert(out[i] == '_');
                } else if i < pre.len() + mid.len() {
                    assert(out[i] == s[0]);
                } else {
                    assert(out[i] == tail[i - pre.len() - mid.len()]);
                }
            }
        }
    }
}

proof fn lemma_collapse_identity(s: Seq<char>)
    requires
        all_sku_chars(s),
    ensures
        collapse(s, false) == s,
    decreases s.len(),
{
    if s.len() > 0 {
        let rest = s.drop_first();
        assert forall|i: int| 0 <= i < rest.len() implies is_sku_char(#[trigger] rest[i]) by {
            assert(rest[i] == s[i + 1]);
        }
        lemma_collapse_identity(rest);
        assert(is_sku_char(s[0]));
        assert(s =~= seq![s[0]] + rest);
    }
}

/// A string made of sanitized characters is its own sanitization.
proof fn lemma_sanitized_fixed_point(s: Seq<char>)
    requires
        all_sku_chars(s),
    ensures
        sanitized(s) == s,
{
    let (a, b) = lemma_trim_bounds(s, false);
    if a > 0 {
        assert(is_sku_char(s[0]));
    }
    if b < s.len() {
        assert(is_sku_char(s[b]));
    }
    assert(trim_matching(s, false) =~= s);
    let n = s.map_values(|c: char| normalize_char(c));
    assert forall|i: int| 0 <= i < s.len() implies n[i] == s[i] by {
        assert(is_sku_char(s[i]));
    }
    assert(n =~= s);
    lemma_collapse_identity(s);
}

/// Sanitizing is idempotent: a sanitized name passes through unchanged.
pub proof fn lemma_sanitize_idempotent(raw: Seq<char>)
    ensures
        sanitized(sanitized(raw)) == sanitized(raw),
{
    lemma_sanitized_chars(raw);
    lemma_sanitized_fixed_point(sanitized(raw));
}

proof fn lemma_collapse_split(x: Seq<char>, z: Seq<char>, pending: bool)
    requires
        x.len() > 0,
        !is_unicode_whitespace(x.last()),
    ensures
        collapse(x + z, pending) == collapse(x, pending) + collapse(z, false),
    decreases x.len(),
{
    let rest = x.drop_first();
    assert((x + z).drop_first() =~= rest + z);
    assert((x + z)[0] == x[0]);
    if rest.len() == 0 {
        assert(rest + z =~= z);
        assert(collapse(rest, false) =~= Seq::<char>::empty());
        if is_unicode_whitespace(x[0]) {
            assert(x.last() == x[0]);
        }
        assert(collapse(x, pending) + collapse(z, false) =~= collapse(x + z, pending));
    } else {
        assert(rest.last() == x.last());
        lemma_collapse_split(rest, z, true);
        lemma_collapse_split(rest, z, false);
        if !is_unicode_whitespace(x[0]) {
            let pre: Seq<char> = if pending { seq!['_'] } else { Seq::empty() };
            let mid: Seq<char> = if is_kept(x[0]) { seq![x[0]] } else { Seq::empty() };
            assert(pre + mid + (collapse(rest, false) + collapse(z, false)) =~= (pre + mid + collapse(rest, false)) + collapse(z, false));
        }
    }
}

proof fn lemma_normalize_keeps_whitespace(c: char)
    ensures
        is_unicode_whitespace(normalize_char(c)) == is_unicode_whitespace(c),
{
}

/// The positions of the first and the last non-whitespace character decide
/// the trimmed string.
proof fn lemma_trim_unique(s: Seq<char>, a: int, b: int)
    requires
        0 <= a < b <= s.len(),
        forall|k: int| 0 <= k < a ==> is_unicode_whitespace(#[trigger] s[k]),
        forall|k: int| b <= k < s.len() ==> is_unicode_whitespace(#[trigger] s[k]),
        !is_unicode_whitespace(s[a]),
        !is_unicode_whitespace(s[b - 1]),
    ensures
        trim_matching(s, false) == s.subrange(a, b),
{
    let (a1, b1) = lemma_trim_bounds(s, false);
    if a1 < a {
        assert(is_trim_char(s[a1], false));
        if a1 < b1 {
        } else {
            assert(is_trim_char(s[a], false));
        }
    }
    if a < a1 {
        assert(is_trim_char(s[a], false));
    }
    if b1 < b {
        assert(is_trim_char(s[b - 1], false));
    }
    if b < b1 {
        assert(is_trim_char(s[b1 - 1], false));
    }
}

/// Sanitization drops every character that is not an ASCII letter or digit,
/// '_', '/', '.' or whitespace: between two non-whitespace characters such a
/// character makes no difference to the result (it never becomes '_').
pub proof fn lemma_sanitize_drops_other_chars(x: Seq<char>, c: char, y: Seq<char>)
    requires
        x.len() > 0,
        y.len() > 0,
        !is_unicode_whitespace(x.last()),
        !is_unicode_whitespace(y[0]),
        !is_ascii_alphanumeric(c),
        c != '_',
        c != '/',
        c != '.',
        !is_unicode_whitespace(c),
    ensures
        sanitized(x + seq![c] + y) == sanitized(x + y),
{
    let s1 = x + seq![c] + y;
    let s2 = x + y;
    let xl = x.len() as int;
    let (a, b) = lemma_trim_bounds(x, false);
    let (a2, b2) = lemma_trim_bounds(y, false);
    // the first non-whitespace character lies in x, the last in y
    assert(a < b) by {
        if a >= b {
            assert(is_trim_char(x[xl - 1], false));
        }
    }
    assert(b == xl) by {
        if b < xl {
            assert(is_trim_char(x[xl - 1], false));
        }
    }
    assert(a2 == 0) by {
        if a2 > 0 {
            assert(is_trim_char(y[0], false));
        }
    }
    assert(b2 > 0) by {
        if b2 == 0 {
            assert(is_trim_char(y[0], false));
        }
    }
    assert forall|k: int| 0 <= k < a implies is_unicode_whitespace(#[trigger] s1[k]) by {
        assert(s1[k] == x[k]);
        assert(is_trim_char(x[k], false));
    }
    assert forall|k: int| xl + 1 + b2 <= k < s1.len() implies is_unicode_whitespace(#[trigger] s1[k]) by {
        assert(s1[k] == y[k - xl - 1]);
        assert(is_trim_char(y[k - xl - 1], false));
    }
    assert(s1[a] == x[a]);
    assert(s1[xl + b2] == y[b2 - 1]);
    lemma_trim_unique(s1, a, xl + 1 + b2);
    assert forall|k: int| 0 <= k < a implies is_unicode_whitespace(#[trigger] s2[k]) by {
        assert(s2[k] == x[k]);
        assert(is_trim_char(x[k], false));
    }
    assert forall|k: int| xl + b2 <= k < s2.len() implies is_unicode_whitespace(#[trigger] s2[k]) by {
        assert(s2[k] == y[k - xl]);
        assert(is_trim_char(y[k - xl], false));
    }
    assert(s2[a] == x[a]);
    assert(s2[xl + b2 - 1] == y[b2 - 1]);
    lemma_trim_unique(s2, a, xl + b2);
    let xs = x.subrange(a, xl);
    let ys = y.subrange(0, b2);
    assert(s1.subrange(a, xl + 1 + b2) =~= xs + seq![c] + ys);
    assert(s2.subrange(a, xl + b2) =~= xs + ys);
    let xn = xs.map_values(|ch: char| normalize_char(ch));
    let yn = ys.map_values(|ch: char| normalize_char(ch));
    assert((xs + seq![c] + ys).map_values(|ch: char| normalize_char(ch)) =~= xn + (seq![c] + yn));
    assert((xs + ys).map_values(|ch: char| normalize_char(ch)) =~= xn + yn);
    lemma_normalize_keeps_whitespace(xs.last());
    lemma_normalize_keeps_whitespace(ys[0]);
    assert(xn.last() == normalize_char(xs.last()));
    assert(xs.last() == x[xl - 1]);
    assert(yn[0] == normalize_char(ys[0]));
    lemma_collapse_split(xn, seq![c] + yn, false);
    lemma_collapse_split(xn, yn, false);
    assert((seq![c] + yn).drop_first() =~= yn);
    assert((seq![c] + yn)[0] == c);
    assert(collapse(seq![c] + yn, false) == collapse(yn, false));
}

/// Sanitized names are made of ASCII digits, uppercase letters and '_'.
pub proof fn lemma_sanitized_chars(raw: Seq<char>)
    ensures
        all_sku_chars(sanitized(raw)),
{
    let t = trim_matching(raw, false).map_values(|c: char| normalize_char(c));
    assert forall|i: int| 0 <= i < t.len() implies !is_ascii_lowercase(#[trigger] t[i]) by {
    }
    lemma_collapse_sku(t, false);
}

/// kubevirt-gpu-device-plugin compatible sanitization, so SKU names match
/// the convention that ecosystem already uses: uppercase, '/', '.', and
/// whitespace runs become '_', everything else non-alphanumeric is dropped.
pub fn sanitize(raw: &str) -> (r: String)
    ensures
        r@ == sanitized(raw@),
        all_sku_chars(r@),
{
    proof {
        lemma_sanitized_chars(raw@);
    }
    let v = chars_of(raw);
    let (lo, hi) = trim_bounds(&v, 0, v.len(), false);
    assert(v@.subrange(0, v.len() as int) =~= raw@);
    let ghost t = trim_matching(raw@, false).map_values(|c: char| normalize_char(c));
    let mut out = String::new();
    let mut pending = false;
    let mut i = lo;
    assert(t.skip(0) =~= t);
    while i < hi
        invariant
            lo <= i <= hi <= v.len(),
            t.len() == hi - lo,
            forall|k: int| lo <= k < hi ==> t[k - lo] == normalize_char(#[trigger] v@[k]),
            collapse(t, false) == out@ + collapse(t.skip(i - lo), pending),
        decreases hi - i,
    {
        let ghost rest = t.skip(i - lo);
        assert(rest[0] == t[i - lo]);
        assert(rest.drop_first() =~= t.skip(i + 1 - lo));
        let c0 = v[i];
        let c = if c0 == '/' || c0 == '.' {
            '_'
        } else {
            to_upper_ascii(c0)
        };
        assert(c == rest[0]);
        if is_whitespace(c) {
            pending = true;
        } else {
            let ghost before = out@;
            let ghost p0 = pending;
            if pending {
                push_char(&mut out, '_');
                pending = false;
            }
            if is_alphanumeric_ascii(c) || c == '_' {
                push_char(&mut out, c);
            }
            assert(out@ + collapse(rest.drop_first(), false) =~= before + collapse(rest, p0));
        }
        i = i + 1;
    }
    assert(collapse(t.skip(hi - lo), pending) =~= Seq::<char>::empty());
    assert(out@ + Seq::<char>::empty() =~= out@);
    out
}


/// The longest name part the kubelet accepts in an extended-resource name.
pub const SKU_SEGMENT_MAX: usize = 63;

/// What `sku_segment` gives for `raw`.
pub open spec fn sku_segment_of(raw: Seq<char>) -> Option<Seq<char>> {
    let s = trim_matching(sanitized(raw), true);
    if s.len() == 0 {
        None
    } else {
        let cut = if s.len() < SKU_SEGMENT_MAX { s.len() as int } else { SKU_SEGMENT_MAX as int };
        Some(trim_matching(s.take(cut), true))
    }
}

/// A usable name part: 1 to 63 sanitized characters, starting and ending
/// with an ASCII letter or digit.
pub open spec fn is_valid_segment(seg: Seq<char>) -> bool {
    &&& 0 < seg.len() <= SKU_SEGMENT_MAX
    &&& all_sku_chars(seg)
    &&& is_ascii_alphanumeric(seg[0])
    &&& is_ascii_alphanumeric(seg.last())
}

proof fn lemma_sku_segment_valid(raw: Seq<char>)
    ensures
        sku_segment_of(raw) matches Some(seg) ==> is_valid_segment(seg),
{
    let s0 = sanitized(raw);
    lemma_sanitized_chars(raw);
    let (a, b) = lemma_trim_bounds(s0, true);
    let s = trim_matching(s0, true);
    if s.len() > 0 {
        let cut = if s.len() < SKU_SEGMENT_MAX { s.len() as int } else { SKU_SEGMENT_MAX as int };
        let t = s.take(cut);
        assert(t[0] == s0[a]);
        assert forall|i: int| 0 <= i < t.len() implies is_sku_char(#[trigger] t[i]) by {
            assert(t[i] == s0[a + i]);
        }
        let (c, d) = lemma_trim_bounds(t, true);
        if c > 0 {
            assert(is_trim_char(t[0], true));
        }
        if d == 0 {
            assert(is_trim_char(t[0], true));
        }
        let seg = t.subrange(c, d);
        assert(seg[0] == t[c]);
        assert(seg.last() == t[d - 1]);
        assert forall|i: int| 0 <= i < seg.len() implies is_sku_char(#[trigger] seg[i]) by {
            assert(seg[i] == t[c + i]);
        }
    }
}

/// Extended-resource names must start and end alphanumeric and the name part
/// is capped at 63 chars, so trim stray underscores and truncate; None if
/// nothing survives sanitization.
pub fn sku_segment(raw: &str) -> (r: Option<String>)
    ensures
        match r {
            Some(seg) => sku_segment_of(raw@) == Some(seg@) && is_valid_segment(seg@),
            None => sku_segment_of(raw@) is None,
        },
{
    proof {
        lemma_sku_segment_valid(raw@);
    }
    let s = sanitize(raw);
    let v = chars_of(s.as_str());
    let (a, b) = trim_bounds(&v, 0, v.len(), true);
    assert(v@.subrange(0, v.len() as int) =~= v@);
    if a == b {
        return None;
    }
    let end = if b - a < SKU_SEGMENT_MAX {
        b
    } else {
        a + SKU_SEGMENT_MAX
    };
    assert(v@.subrange(a as int, b as int).take(end - a) =~= v@.subrange(a as int, end as int));
    let (c, d) = trim_bounds(&v, a, end, true);
    Some(string_of(&v, c, d))
}


/// One advertisable resource: a Kubernetes extended-resource name declared
/// by a PCI identity match against `/sys/class/vfio-dev`.
pub struct Resource {
    /// Kubernetes extended-resource name; also the CDI kind.
    pub name: &'static str,
    /// PCI vendor ID, e.g. `0x10de` for NVIDIA.
    pub vendor: u16,
    /// Exact PCI device id for curated alias rows, e.g. Some(0x2941);
    /// None matches the whole class.
    pub device: Option<u16>,
    /// Base class and subclass (upper 16 bits of the 24-bit class code),
    /// e.g. `0x0302` for 3D controller.
    pub class_prefix: u16,
}

/// The RESOURCES table: everything this plugin can advertise, first match
/// wins — curated alias rows (exact device id) go above their class fallback.
pub open spec fn resource_table() -> Seq<Resource> {
    seq![
        Resource {
            name: "nvidia.com/gpu",
            vendor: 0x10de,
            device: None,
            class_prefix: 0x0302,
        },
        Resource {
            name: "nvidia.com/nvswitch",
            vendor: 0x10de,
            device: None,
            class_prefix: 0x0680,
        },
    ]
}

/// Everything this plugin can advertise, first match wins — put curated
/// alias rows (exact device id) above their class fallback.  A resource is
/// advertised iff matching devices are VFIO-bound; supporting a new device
/// type or alias is one new row, no other code changes.
pub fn resources() -> (r: Vec<Resource>)
    ensures
        r@ == resource_table(),
{
    let mut r: Vec<Resource> = Vec::new();
    r.push(
        Resource {
            name: "nvidia.com/gpu",
            vendor: 0x10de,
            device: None,
            class_prefix: 0x0302,  // 3D controller
        },
    );
    r.push(
        Resource {
            name: "nvidia.com/nvswitch",
            vendor: 0x10de,
            device: None,
            class_prefix: 0x0680,  // bridge: other
        },
    );
    assert(r@ =~= resource_table());
    r
}


/// One IOMMUFD cdev (`/dev/vfio/devices/vfio<num>`) with the PCI identity of
/// the device behind it, as read from sysfs.
#[derive(Clone, Debug)]
pub struct IommufdDev {
    /// The cdev number: `vfio<num>`.
    pub num: u32,
    /// The cdev path.
    pub path: String,
    /// PCI vendor ID.
    pub vendor: u16,
    /// PCI device ID.
    pub device: u16,
    /// The 24-bit PCI class code (base class, subclass, programming interface).
    pub class: u32,
}

/// Base class and subclass: the upper 16 bits of the 24-bit class code.
pub open spec fn class_prefix_of(class: u32) -> u16 {
    (class >> 8) as u16
}

impl IommufdDev {
    /// Base class and subclass (upper 16 bits of the 24-bit class code).
    pub fn class_prefix(&self) -> (r: u16)
        ensures
            r == class_prefix_of(self.class),
    {
        (self.class >> 8) as u16
    }
}

/// `row` declares `dev`: same vendor and class prefix, and the same device
/// id where the row names one.
pub open spec fn row_matches(row: Resource, dev: IommufdDev) -> bool {
    &&& dev.vendor == row.vendor
    &&& class_prefix_of(dev.class) == row.class_prefix
    &&& (row.device matches Some(d) ==> dev.device == d)
}

/// The first row of `table` that declares `dev`, if any.
pub open spec fn matched_row(table: Seq<Resource>, dev: IommufdDev) -> Option<Resource>
    decreases table.len(),
{
    if table.len() == 0 {
        None
    } else if row_matches(table[0], dev) {
        Some(table[0])
    } else {
        matched_row(table.drop_first(), dev)
    }
}

fn row_matches_exec(row: &Resource, dev: &IommufdDev) -> (b: bool)
    ensures
        b == row_matches(*row, *dev),
{
    dev.vendor == row.vendor && dev.class_prefix() == row.class_prefix && match row.device {
        Some(d) => dev.device == d,
        None => true,
    }
}

/// The row of `table` that `dev` is advertised under: the first that
/// matches (first match wins).
pub fn find_resource<'a>(table: &'a [Resource], dev: &IommufdDev) -> (r: Option<&'a Resource>)
    ensures
        match r {
            Some(row) => matched_row(table@, *dev) == Some(*row),
            None => matched_row(table@, *dev) is None,
        },
        // a row declares a device only on the same vendor, the whole 16-bit class
        // prefix (class >> 8), and, for a curated row, exactly its device id
        r matches Some(row) ==> dev.vendor == row.vendor && (dev.class >> 8) as u16 == row.class_prefix
            && (row.device matches Some(d) ==> dev.device == d),
        // no row is passed over whose fields declare the device
        r is None ==> forall|k: int| 0 <= k < table@.len() ==> !(dev.vendor == #[trigger] table@[k].vendor
            && (dev.class >> 8) as u16 == table@[k].class_prefix
            && (table@[k].device matches Some(d) ==> dev.device == d)),
{
    proof {
        lemma_declaring_row(table@, *dev);
    }
    let mut i: usize = 0;
    assert(table@.skip(0) =~= table@);
    while i < table.len()
        invariant
            i <= table@.len(),
            matched_row(table@, *dev) == matched_row(table@.skip(i as int), *dev),
        decreases table@.len() - i,
    {
        assert(table@.skip(i as int)[0] == table@[i as int]);
        assert(table@.skip(i as int).drop_first() =~= table@.skip(i + 1));
        if row_matches_exec(&table[i], dev) {
            return Some(&table[i]);
        }
        i = i + 1;
    }
    None
}



/// The row chosen for a device is the first row whose fields declare it: the
/// same vendor, the whole 16-bit class prefix (class >> 8), and for a curated
/// row (device id given) exactly that device id; when no row's fields declare
/// the device, none is chosen.
pub proof fn lemma_declaring_row(table: Seq<Resource>, dev: IommufdDev)
    ensures
        matched_row(table, dev) matches Some(row) ==> {
            &&& dev.vendor == row.vendor
            &&& (dev.class >> 8) as u16 == row.class_prefix
            &&& (row.device matches Some(d) ==> dev.device == d)
            &&& exists|k: int| 0 <= k < table.len() && table[k] == row && forall|j: int| 0 <= j < k ==>
                !(dev.vendor == #[trigger] table[j].vendor && (dev.class >> 8) as u16 == table[j].class_prefix
                    && (table[j].device matches Some(d) ==> dev.device == d))
        },
        matched_row(table, dev) is None <==> forall|k: int| 0 <= k < table.len() ==> !(dev.vendor
            == #[trigger] table[k].vendor && (dev.class >> 8) as u16 == table[k].class_prefix
            && (table[k].device matches Some(d) ==> dev.device == d)),
    decreases table.len(),
{
    if table.len() > 0 {
        let rest = table.drop_first();
        lemma_declaring_row(rest, dev);
        if !row_matches(table[0], dev) {
            if let Some(row) = matched_row(rest, dev) {
                let k = choose|k: int| 0 <= k < rest.len() && rest[k] == row && forall|j: int| 0 <= j < k ==>
                    !(dev.vendor == #[trigger] rest[j].vendor && (dev.class >> 8) as u16 == rest[j].class_prefix
                        && (rest[j].device matches Some(d) ==> dev.device == d));
                assert(table[k + 1] == row);
                assert forall|j: int| 0 <= j < k + 1 implies !(dev.vendor == #[trigger] table[j].vendor
                    && (dev.class >> 8) as u16 == table[j].class_prefix
                    && (table[j].device matches Some(d) ==> dev.device == d)) by {
                    if j > 0 {
                        assert(table[j] == rest[j - 1]);
                    }
                }
            }
            assert((forall|k: int| 0 <= k < table.len() ==> !(dev.vendor == #[trigger] table[k].vendor
                && (dev.class >> 8) as u16 == table[k].class_prefix
                && (table[k].device matches Some(d) ==> dev.device == d))) <==> (forall|k: int| 0 <= k
                < rest.len() ==> !(dev.vendor == #[trigger] rest[k].vendor && (dev.class >> 8) as u16
                == rest[k].class_prefix && (rest[k].device matches Some(d) ==> dev.device == d)))) by {
                if forall|k: int| 0 <= k < rest.len() ==> !(dev.vendor == #[trigger] rest[k].vendor
                    && (dev.class >> 8) as u16 == rest[k].class_prefix && (rest[k].device matches Some(d)
                    ==> dev.device == d)) {
                    assert forall|k: int| 0 <= k < table.len() implies !(dev.vendor == #[trigger] table[k].vendor
                        && (dev.class >> 8) as u16 == table[k].class_prefix
                        && (table[k].device matches Some(d) ==> dev.device == d)) by {
                        if k > 0 {
                            assert(table[k] == rest[k - 1]);
                        }
                    }
                }
                if forall|k: int| 0 <= k < table.len() ==> !(dev.vendor == #[trigger] table[k].vendor
                    && (dev.class >> 8) as u16 == table[k].class_prefix && (table[k].device matches Some(d)
                    ==> dev.device == d)) {
                    assert forall|k: int| 0 <= k < rest.len() implies !(dev.vendor == #[trigger] rest[k].vendor
                        && (dev.class >> 8) as u16 == rest[k].class_prefix
                        && (rest[k].device matches Some(d) ==> dev.device == d)) by {
                        assert(rest[k] == table[k + 1]);
                    }
                }
            }
        } else {
            assert(table[0] == table[0]);
        }
    }
}

/// Name for the device name that the PCI ID database (the `pci-ids` crate)
/// records for `vendor:device`, or None where it has no such entry.
pub uninterp spec fn pci_id_device_name(vendor: u16, device: u16) -> Option<Seq<char>>;

/// Looks up `vendor:device` in the PCI ID database.
/// Trusted: calls `pci_ids::Device::from_vid_pid` and takes the entry's
/// `name()`; the contract only ties the result to the arguments through the
/// name `pci_id_device_name`, the database's contents are left unsaid.
#[verifier::external_body]
fn pci_device_name(vendor: u16, device: u16) -> (r: Option<String>)
    ensures
        match r {
            Some(name) => pci_id_device_name(vendor, device) == Some(name@),
            None => pci_id_device_name(vendor, device) is None,
        },
{
    match pci_ids::Device::from_vid_pid(vendor, device) {
        Some(entry) => Some(entry.name().to_owned()),
        None => None,
    }
}

/// The part of `name` before its first '/', or all of it
/// (`name.split('/').next()`).
pub open spec fn domain_of(name: Seq<char>) -> Seq<char>
    decreases name.len(),
{
    if name.len() == 0 || name[0] == '/' {
        Seq::empty()
    } else {
        seq![name[0]] + domain_of(name.drop_first())
    }
}

proof fn lemma_domain_prefix(name: Seq<char>)
    ensures
        domain_of(name).len() <= name.len(),
        domain_of(name) == name.take(domain_of(name).len() as int),
    decreases name.len(),
{
    if name.len() > 0 && name[0] != '/' {
        lemma_domain_prefix(name.drop_first());
        assert(domain_of(name) =~= name.take(domain_of(name).len() as int));
    }
}

/// SKU names stay in the row's domain: every name `sku_name_with` gives
/// starts with the part of the row name before its first '/'.
pub proof fn lemma_sku_name_in_domain(row_name: Seq<char>, device_name: Option<Seq<char>>)
    ensures
        domain_of(row_name).len() <= sku_name_of(row_name, device_name).len(),
        sku_name_of(row_name, device_name).take(domain_of(row_name).len() as int) == domain_of(row_name),
{
    lemma_domain_prefix(row_name);
    let d = domain_of(row_name);
    if let Some(raw) = device_name {
        if let Some(seg) = sku_segment_of(raw) {
            assert((d + seq!['/'] + seg).take(d.len() as int) =~= d);
        }
    }
}

/// What `sku_name_with` gives for a row name and a database device name.
pub open spec fn sku_name_of(row_name: Seq<char>, device_name: Option<Seq<char>>) -> Seq<char> {
    match device_name {
        Some(raw) => match sku_segment_of(raw) {
            Some(seg) => domain_of(row_name) + seq!['/'] + seg,
            None => row_name,
        },
        None => row_name,
    }
}

/// The name a device matched by `row` is advertised under.
pub open spec fn advertised_name(row: Resource, dev: IommufdDev, naming: Naming) -> Seq<char> {
    match naming {
        Naming::Alias => row.name@,
        Naming::Sku => sku_name_of(row.name@, pci_id_device_name(dev.vendor, dev.device)),
    }
}

fn domain(name: &str) -> (r: String)
    ensures
        r@ == domain_of(name@),
{
    let v = chars_of(name);
    let mut i: usize = 0;
    assert(v@.skip(0) =~= v@);
    assert(v@.take(0) =~= Seq::<char>::empty());
    while i < v.len() && v[i] != '/'
        invariant
            i <= v.len(),
            v@ == name@,
            domain_of(name@) == v@.take(i as int) + domain_of(v@.skip(i as int)),
        decreases v.len() - i,
    {
        let ghost rest = v@.skip(i as int);
        assert(rest[0] == v@[i as int]);
        assert(rest.drop_first() =~= v@.skip(i + 1));
        assert(v@.take(i + 1) =~= v@.take(i as int) + seq![v@[i as int]]);
        i = i + 1;
    }
    if i < v.len() {
        assert(v@.skip(i as int)[0] == '/');
    }
    assert(v@.take(i as int) =~= v@.subrange(0, i as int));
    string_of(&v, 0, i)
}

/// 10de:2330 → "nvidia.com/GH100_H100_SXM5_80GB" given the database name
/// "GH100 [H100 SXM5 80GB]"; a device name that is unknown (None) — or that
/// sanitizes to nothing usable — falls back to the row's own name, so a bad
/// database entry degrades to the generic resource instead of producing a
/// name the kubelet rejects.
pub fn sku_name_with(row: &Resource, device_name: Option<&str>) -> (r: String)
    ensures
        r@ == sku_name_of(
            row.name@,
            match device_name {
                Some(n) => Some(n@),
                None => None,
            },
        ),
{
    match device_name {
        Some(raw) => match sku_segment(raw) {
            Some(seg) => {
                let mut out = domain(row.name);
                push_char(&mut out, '/');
                out.append(seg.as_str());
                out
            },
            None => row.name.to_owned(),
        },
        None => row.name.to_owned(),
    }
}

/// The SKU name of `dev` under `row`: its PCI ID database name, sanitized,
/// in the row's domain; the row's own name where the database gives nothing
/// usable.
pub fn sku_name(row: &Resource, dev: &IommufdDev) -> (r: String)
    ensures
        r@ == sku_name_of(row.name@, pci_id_device_name(dev.vendor, dev.device)),
{
    let found = pci_device_name(dev.vendor, dev.device);
    match &found {
        Some(name) => sku_name_with(row, Some(name.as_str())),
        None => sku_name_with(row, None),
    }
}

/// The name `dev` is advertised under when `row` matches it.
pub fn advertised_resource_name(row: &Resource, dev: &IommufdDev, naming: Naming) -> (r: String)
    ensures
        r@ == advertised_name(*row, *dev, naming),
        // alias mode keeps the row's name; SKU mode names every matched device,
        // under any row, by its PCI ID database name in the row's domain
        naming is Alias ==> r@ == row.name@,
        naming is Sku ==> r@ == sku_name_of(row.name@, pci_id_device_name(dev.vendor, dev.device)),
{
    match naming {
        Naming::Alias => row.name.to_owned(),
        Naming::Sku => sku_name(row, dev),
    }
}


/// The name `dev` is advertised under with `table`: its first matching row's
/// name (or SKU name), or None when no row declares it.
pub open spec fn device_resource_name(table: Seq<Resource>, dev: IommufdDev, naming: Naming) -> Option<Seq<char>> {
    match matched_row(table, dev) {
        Some(row) => Some(advertised_name(row, dev, naming)),
        None => None,
    }
}

/// Whatever row declares a device, alias mode advertises it under that row's
/// name and SKU mode under the row's SKU name for the device's PCI ID database
/// entry.
pub proof fn lemma_advertised_under_declaring_row(table: Seq<Resource>, dev: IommufdDev)
    ensures
        matched_row(table, dev) matches Some(row) ==> {
            &&& device_resource_name(table, dev, Naming::Alias) == Some(row.name@)
            &&& device_resource_name(table, dev, Naming::Sku) == Some(
                sku_name_of(row.name@, pci_id_device_name(dev.vendor, dev.device)),
            )
        },
        matched_row(table, dev) is None ==> device_resource_name(table, dev, Naming::Alias) is None
            && device_resource_name(table, dev, Naming::Sku) is None,
{
}

/// The devices of `devs` advertised under `name`, in their order in `devs`.
pub open spec fn group_of(devs: Seq<IommufdDev>, table: Seq<Resource>, naming: Naming, name: Seq<char>) -> Seq<IommufdDev> {
    devs.filter(advertised_as(table, naming, name))
}

/// Whether a device is advertised under `name`.
pub open spec fn advertised_as(table: Seq<Resource>, naming: Naming, name: Seq<char>) -> spec_fn(IommufdDev) -> bool {
    |d: IommufdDev| device_resource_name(table, d, naming) == Some(name)
}

proof fn lemma_group_push(devs: Seq<IommufdDev>, d: IommufdDev, table: Seq<Resource>, naming: Naming, name: Seq<char>)
    ensures
        group_of(devs.push(d), table, naming, name) == if device_resource_name(table, d, naming) == Some(name) {
            group_of(devs, table, naming, name).push(d)
        } else {
            group_of(devs, table, naming, name)
        },
{
    devs.lemma_filter_push(d, advertised_as(table, naming, name));
}

proof fn lemma_group_empty(devs: Seq<IommufdDev>, table: Seq<Resource>, naming: Naming, name: Seq<char>)
    requires
        forall|j: int| 0 <= j < devs.len() ==> device_resource_name(table, #[trigger] devs[j], naming) != Some(name),
    ensures
        group_of(devs, table, naming, name).len() == 0,
{
    let p = advertised_as(table, naming, name);
    assert(devs.all(|x: IommufdDev| !p(x)));
    devs.lemma_all_neg_filter_empty(p);
}

/// The devices advertised under one resource name.
pub struct ResourceDevices {
    /// The Kubernetes extended-resource name.
    pub name: String,
    /// Its devices, in enumeration (numeric cdev) order.
    pub devices: Vec<IommufdDev>,
}

/// Resource name → devices, kept in ascending name order (the iteration
/// order of a `BTreeMap<String, Vec<IommufdDev>>`).
pub struct ResourceMap {
    entries: Vec<ResourceDevices>,
}

/// Entries are in strictly ascending name order (so no name occurs twice).
pub open spec fn keys_ascending(m: Seq<(Seq<char>, Seq<IommufdDev>)>) -> bool {
    forall|i: int, j: int| 0 <= i < j < m.len() ==> lex_lt(#[trigger] m[i].0, #[trigger] m[j].0)
}

/// The names of `m`, in order.
pub open spec fn keys_of(m: Seq<(Seq<char>, Seq<IommufdDev>)>) -> Seq<Seq<char>> {
    m.map_values(|e: (Seq<char>, Seq<IommufdDev>)| e.0)
}

pub open spec fn entry_view(e: ResourceDevices) -> (Seq<char>, Seq<IommufdDev>) {
    (e.name@, e.devices@)
}

impl View for ResourceMap {
    type V = Seq<(Seq<char>, Seq<IommufdDev>)>;

    closed spec fn view(&self) -> Seq<(Seq<char>, Seq<IommufdDev>)> {
        self.entries@.map_values(|e: ResourceDevices| entry_view(e))
    }
}

impl ResourceMap {
    fn new() -> (r: ResourceMap)
        ensures
            r@ == Seq::<(Seq<char>, Seq<IommufdDev>)>::empty(),
    {
        let r = ResourceMap { entries: Vec::new() };
        assert(r@ =~= Seq::<(Seq<char>, Seq<IommufdDev>)>::empty());
        r
    }

    /// The number of resource names.
    pub fn len(&self) -> (r: usize)
        ensures
            r == self@.len(),
    {
        self.entries.len()
    }

    /// Whether no resource name is present.
    pub fn is_empty(&self) -> (r: bool)
        ensures
            r == (self@.len() == 0),
    {
        self.entries.len() == 0
    }

    /// The entries, in ascending name order.
    pub fn entries(&self) -> (r: &Vec<ResourceDevices>)
        ensures
            r@.map_values(|e: ResourceDevices| entry_view(e)) == self@,
    {
        &self.entries
    }

    /// The devices advertised under `name`, if it is present.
    pub fn get(&self, name: &str) -> (r: Option<&Vec<IommufdDev>>)
        ensures
            match r {
                Some(devices) => exists|i: int|
                    0 <= i < self@.len() && #[trigger] self@[i].0 == name@ && self@[i].1 == devices@,
                None => forall|i: int| 0 <= i < self@.len() ==> #[trigger] self@[i].0 != name@,
            },
    {
        let mut i: usize = 0;
        while i < self.entries.len()
            invariant
                i <= self.entries@.len(),
                self@.len() == self.entries@.len(),
                forall|j: int| 0 <= j < i ==> #[trigger] self@[j].0 != name@,
            decreases self.entries@.len() - i,
        {
            assert(self@[i as int] == entry_view(self.entries@[i as int]));
            if str_eq(self.entries[i].name.as_str(), name) {
                assert(self@[i as int].0 == name@ && self@[i as int].1 == self.entries@[i as int].devices@);
                return Some(&self.entries[i].devices);
            }
            i = i + 1;
        }
        None
    }

    /// Whether `name` is present.
    pub fn contains_key(&self, name: &str) -> (r: bool)
        ensures
            r == exists|i: int| 0 <= i < self@.len() && #[trigger] self@[i].0 == name@,
    {
        self.get(name).is_some()
    }

    /// The resource names, in ascending order.
    pub fn into_keys(self) -> (r: Vec<String>)
        ensures
            r@.len() == self@.len(),
            forall|i: int| 0 <= i < r@.len() ==> #[trigger] r@[i]@ == self@[i].0,
    {
        let ghost v = self@;
        let mut keys: Vec<String> = Vec::new();
        for e in it: self.entries
            invariant
                it.seq().map_values(|e: ResourceDevices| entry_view(e)) == v,
                keys@.len() == it.index(),
                forall|i: int| 0 <= i < keys@.len() ==> #[trigger] keys@[i]@ == v[i].0,
        {
            proof {
                assert(v[it.index() as int] == entry_view(e));
            }
            keys.push(e.name);
        }
        keys
    }

    /// Files `dev` under `name`: appended to that name's devices when the name
    /// is present (`r.1`), else a new entry at index `r.0` keeps names ascending.
    fn insert_device(&mut self, name: String, dev: IommufdDev) -> (r: (usize, bool))
        requires
            keys_ascending(old(self)@),
        ensures
            keys_ascending(final(self)@),
            r.1 ==> r.0 < old(self)@.len() && old(self)@[r.0 as int].0 == name@ && final(self)@
                == old(self)@.update(r.0 as int, (name@, old(self)@[r.0 as int].1.push(dev))),
            !r.1 ==> r.0 <= old(self)@.len() && (forall|i: int|
                0 <= i < old(self)@.len() ==> old(self)@[i].0 != name@) && final(self)@
                == old(self)@.insert(r.0 as int, (name@, seq![dev])),
    {
        let ghost e0 = self@;
        let key = chars_of(name.as_str());
        let mut i: usize = 0;
        while i < self.entries.len()
            invariant
                i <= self.entries@.len(),
                self@ == e0,
                e0 == old(self)@,
                self@.len() == self.entries@.len(),
                key@ == name@,
                keys_ascending(e0),
                forall|j: int| 0 <= j < i ==> lex_lt(#[trigger] e0[j].0, name@),
            decreases self.entries@.len() - i,
        {
            let cur = chars_of(self.entries[i].name.as_str());
            assert(cur@ == e0[i as int].0);
            match compare_chars(&cur, &key) {
                Order::Less => {},
                Order::Equal => {
                    let mut entry = self.entries.remove(i);
                    entry.devices.push(dev);
                    self.entries.insert(i, entry);
                    assert(self@ =~= e0.update(i as int, (name@, e0[i as int].1.push(dev))));
                    assert forall|a: int, b: int| 0 <= a < b < self@.len() implies lex_lt(
                        #[trigger] self@[a].0,
                        #[trigger] self@[b].0,
                    ) by {
                        assert(e0[a].0 == self@[a].0);
                        assert(e0[b].0 == self@[b].0);
                    }
                    return (i, true);
                },
                Order::Greater => {
                    let ghost k = e0[i as int].0;
                    assert forall|j: int| 0 <= j < e0.len() implies e0[j].0 != name@ by {
                        lemma_lex_irreflexive(name@);
                        lemma_lex_asymmetric(name@, k);
                        if j > i {
                            lemma_lex_transitive(name@, k, e0[j].0);
                        }
                    }
                    let mut devices: Vec<IommufdDev> = Vec::new();
                    devices.push(dev);
                    self.entries.insert(i, ResourceDevices { name, devices });
                    assert(self@ =~= e0.insert(i as int, (name@, seq![dev])));
                    assert forall|a: int, b: int| 0 <= a < b < self@.len() implies lex_lt(
                        #[trigger] self@[a].0,
                        #[trigger] self@[b].0,
                    ) by {
                        if b == i {
                        } else if a == i {
                            if b > i + 1 {
                                lemma_lex_transitive(name@, k, self@[b].0);
                            }
                        }
                    }
                    return (i, false);
                },
            }
            i = i + 1;
        }
        assert forall|j: int| 0 <= j < e0.len() implies e0[j].0 != name@ by {
            lemma_lex_irreflexive(name@);
        }
        let mut devices: Vec<IommufdDev> = Vec::new();
        devices.push(dev);
        self.entries.push(ResourceDevices { name, devices });
        assert(self@ =~= e0.insert(i as int, (name@, seq![dev])));
        (i, false)
    }
}


proof fn lemma_group_members(devs: Seq<IommufdDev>, table: Seq<Resource>, naming: Naming, name: Seq<char>, x: IommufdDev)
    requires
        group_of(devs, table, naming, name).contains(x),
    ensures
        devs.contains(x),
        device_resource_name(table, x, naming) == Some(name),
{
    let p = advertised_as(table, naming, name);
    devs.lemma_filter_contains_rev(p, x);
    let g = devs.filter(p);
    let k = choose|k: int| 0 <= k < g.len() && g[k] == x;
    devs.lemma_filter_pred(p, k);
}

proof fn lemma_group_includes(devs: Seq<IommufdDev>, table: Seq<Resource>, naming: Naming, j: int)
    requires
        0 <= j < devs.len(),
        device_resource_name(table, devs[j], naming) is Some,
    ensures
        group_of(devs, table, naming, device_resource_name(table, devs[j], naming)->0).contains(devs[j]),
{
    let p = advertised_as(table, naming, device_resource_name(table, devs[j], naming)->0);
    devs.lemma_filter_contains(p, j);
}

/// Cdev numbers strictly ascending.
pub open spec fn nums_ascending(devs: Seq<IommufdDev>) -> bool {
    forall|a: int, b: int| 0 <= a < b < devs.len() ==> #[trigger] devs[a].num < #[trigger] devs[b].num
}

proof fn lemma_group_ascending(devs: Seq<IommufdDev>, table: Seq<Resource>, naming: Naming, name: Seq<char>)
    requires
        nums_ascending(devs),
    ensures
        nums_ascending(group_of(devs, table, naming, name)),
    decreases devs.len(),
{
    if devs.len() > 0 {
        let rest = devs.drop_last();
        let last = devs.last();
        lemma_group_ascending(rest, table, naming, name);
        assert(devs =~= rest.push(last));
        lemma_group_push(rest, last, table, naming, name);
        let g0 = group_of(rest, table, naming, name);
        let g = group_of(devs, table, naming, name);
        assert forall|a: int, b: int| 0 <= a < b < g.len() implies #[trigger] g[a].num < #[trigger] g[b].num by {
            if b == g0.len() {
                assert(g[a] == g0[a]);
                assert(g0.contains(g0[a]));
                lemma_group_members(rest, table, naming, name, g0[a]);
                let k = choose|k: int| 0 <= k < rest.len() && rest[k] == g0[a];
                assert(devs[k] == rest[k]);
                assert(devs[devs.len() - 1] == last);
            } else {
                assert(g[a] == g0[a]);
                assert(g[b] == g0[b]);
            }
        }
    }
}

/// Every name `table` gives to one of `devs` is a key of `m`.
pub open spec fn names_covered(m: Seq<(Seq<char>, Seq<IommufdDev>)>, devs: Seq<IommufdDev>, table: Seq<Resource>, naming: Naming) -> bool {
    forall|j: int| #![trigger devs[j]] 0 <= j < devs.len() ==> (device_resource_name(table, devs[j], naming) matches Some(n) ==> exists|i: int| 0 <= i < m.len() && m[i].0 == n)
}

/// Each entry of `m` holds exactly the devices of `devs` advertised under
/// its name, in their order in `devs`, and at least one.
pub open spec fn groups_exact(m: Seq<(Seq<char>, Seq<IommufdDev>)>, devs: Seq<IommufdDev>, table: Seq<Resource>, naming: Naming) -> bool {
    forall|i: int| #![trigger m[i]] 0 <= i < m.len() ==> m[i].1 == group_of(devs, table, naming, m[i].0) && m[i].1.len() > 0
}

/// `name` is the name of a row of `table`.
pub open spec fn is_row_name(table: Seq<Resource>, name: Seq<char>) -> bool {
    exists|k: int| 0 <= k < table.len() && #[trigger] table[k].name@ == name
}

proof fn lemma_matched_row_in_table(table: Seq<Resource>, dev: IommufdDev)
    ensures
        matched_row(table, dev) matches Some(row) ==> is_row_name(table, row.name@),
    decreases table.len(),
{
    if table.len() > 0 {
        if row_matches(table[0], dev) {
            assert(table[0].name@ == table[0].name@);
        } else {
            lemma_matched_row_in_table(table.drop_first(), dev);
            if let Some(row) = matched_row(table, dev) {
                let k = choose|k: int| 0 <= k < table.drop_first().len() && #[trigger] table.drop_first()[k].name@ == row.name@;
                assert(table[k + 1] == table.drop_first()[k]);
            }
        }
    }
}

/// Some device of `devs` is advertised under `name`.
pub open spec fn names_some_device(devs: Seq<IommufdDev>, table: Seq<Resource>, naming: Naming, name: Seq<char>) -> bool {
    exists|j: int| 0 <= j < devs.len() && device_resource_name(table, #[trigger] devs[j], naming) == Some(name)
}

proof fn lemma_keys_are_names(m: Seq<(Seq<char>, Seq<IommufdDev>)>, all: Seq<IommufdDev>, t: Seq<Resource>, naming: Naming)
    requires
        groups_exact(m, all, t, naming),
    ensures
        forall|i: int| 0 <= i < m.len() ==> names_some_device(all, t, naming, #[trigger] m[i].0),
{
    assert forall|i: int| 0 <= i < m.len() implies names_some_device(all, t, naming, #[trigger] m[i].0) by {
        let g = m[i].1;
        assert(g.len() > 0);
        assert(g.contains(g[0]));
        lemma_group_members(all, t, naming, m[i].0, g[0]);
        let j = choose|j: int| 0 <= j < all.len() && all[j] == g[0];
        assert(device_resource_name(t, all[j], naming) == Some(m[i].0));
    }
}

proof fn lemma_grouping_laws(m: Seq<(Seq<char>, Seq<IommufdDev>)>, all: Seq<IommufdDev>, t: Seq<Resource>, naming: Naming)
    requires
        keys_ascending(m),
        groups_exact(m, all, t, naming),
        names_covered(m, all, t, naming),
    ensures
        forall|j: int| #![trigger all[j]] 0 <= j < all.len() ==> (device_resource_name(t, all[j], naming) is Some
            <==> exists|i: int| 0 <= i < m.len() && m[i].1.contains(all[j])),
        forall|j: int, a: int, b: int| 0 <= j < all.len() && 0 <= a < m.len() && 0 <= b < m.len()
            && #[trigger] m[a].1.contains(all[j]) && #[trigger] m[b].1.contains(all[j]) ==> a == b,
        forall|i: int| 0 <= i < m.len() ==> names_some_device(all, t, naming, #[trigger] m[i].0),
        nums_ascending(all) ==> forall|i: int| 0 <= i < m.len() ==> nums_ascending(#[trigger] m[i].1),
{
    assert forall|j: int| #![trigger all[j]] 0 <= j < all.len() implies (device_resource_name(t, all[j], naming) is Some
        <==> exists|i: int| 0 <= i < m.len() && m[i].1.contains(all[j])) by {
        if device_resource_name(t, all[j], naming) is Some {
            let i = choose|i: int| 0 <= i < m.len() && m[i].0 == device_resource_name(t, all[j], naming)->0;
            lemma_group_includes(all, t, naming, j);
            assert(m[i].1.contains(all[j]));
        }
        if exists|i: int| 0 <= i < m.len() && m[i].1.contains(all[j]) {
            let i = choose|i: int| 0 <= i < m.len() && m[i].1.contains(all[j]);
            lemma_group_members(all, t, naming, m[i].0, all[j]);
        }
    }
    assert forall|j: int, a: int, b: int| 0 <= j < all.len() && 0 <= a < m.len() && 0 <= b < m.len()
        && #[trigger] m[a].1.contains(all[j]) && #[trigger] m[b].1.contains(all[j]) implies a == b by {
        lemma_group_members(all, t, naming, m[a].0, all[j]);
        lemma_group_members(all, t, naming, m[b].0, all[j]);
        lemma_lex_irreflexive(m[a].0);
    }
    lemma_keys_are_names(m, all, t, naming);
    if nums_ascending(all) {
        assert forall|i: int| 0 <= i < m.len() implies nums_ascending(#[trigger] m[i].1) by {
            lemma_group_ascending(all, t, naming, m[i].0);
        }
    }
}

/// With the RESOURCES table a device is advertised exactly when it is an
/// NVIDIA device (vendor 0x10de) whose whole class prefix (class >> 8) is
/// 0x0302 (3D controller) or 0x0680 (bridge: other).
pub proof fn lemma_resources_declare(dev: IommufdDev, naming: Naming)
    ensures
        device_resource_name(resource_table(), dev, naming) is Some <==> dev.vendor == 0x10de && (
        (dev.class >> 8) as u16 == 0x0302 || (dev.class >> 8) as u16 == 0x0680),
{
    let t = resource_table();
    lemma_declaring_row(t, dev);
    if dev.vendor == 0x10de && ((dev.class >> 8) as u16 == 0x0302 || (dev.class >> 8) as u16 == 0x0680) {
        if (dev.class >> 8) as u16 == 0x0302 {
            assert(dev.vendor == t[0].vendor && (dev.class >> 8) as u16 == t[0].class_prefix);
        } else {
            assert(dev.vendor == t[1].vendor && (dev.class >> 8) as u16 == t[1].class_prefix);
        }
    }
}

/// Group all IOMMUFD cdevs (in enumeration order) by advertised resource
/// name.  Rows are first-match-wins per device, so every cdev lands in exactly
/// one resource — or none, when no row declares it; devices within a name
/// keep their enumeration order, which fixes the advertised device IDs / CDI
/// spec indices.
pub fn discover(devs: Vec<IommufdDev>, naming: Naming) -> (r: ResourceMap)
    ensures
        keys_ascending(r@),
        groups_exact(r@, devs@, resource_table(), naming),
        names_covered(r@, devs@, resource_table(), naming),
        // every cdev lands in exactly one resource, or in none when no row declares it
        forall|j: int| #![trigger devs@[j]] 0 <= j < devs@.len() ==> (device_resource_name(resource_table(), devs@[j], naming) is Some
            <==> exists|i: int| 0 <= i < r@.len() && r@[i].1.contains(devs@[j])),
        forall|j: int, a: int, b: int| 0 <= j < devs@.len() && 0 <= a < r@.len() && 0 <= b < r@.len()
            && #[trigger] r@[a].1.contains(devs@[j]) && #[trigger] r@[b].1.contains(devs@[j]) ==> a == b,
        // a name is advertised iff some device is advertised under it
        forall|i: int| 0 <= i < r@.len() ==> names_some_device(devs@, resource_table(), naming, #[trigger] r@[i].0),
        // devices within a name keep their (numeric) enumeration order
        nums_ascending(devs@) ==> forall|i: int| 0 <= i < r@.len() ==> nums_ascending(#[trigger] r@[i].1),
        // in alias mode every name is a RESOURCES row name
        naming is Alias ==> forall|i: int| 0 <= i < r@.len() ==> is_row_name(resource_table(), #[trigger] r@[i].0),
        // a device is advertised exactly when it is NVIDIA with class prefix 0x0302 or 0x0680
        forall|j: int| #![trigger devs@[j]] 0 <= j < devs@.len() ==> ((devs@[j].vendor == 0x10de && (
            (devs@[j].class >> 8) as u16 == 0x0302 || (devs@[j].class >> 8) as u16 == 0x0680))
            <==> exists|i: int| 0 <= i < r@.len() && r@[i].1.contains(devs@[j])),
{
    let table = resources();
    let mut map = ResourceMap::new();
    let ghost all = devs@;
    let ghost t = resource_table();
    for dev in it: devs
        invariant
            table@ == t,
            it.seq() == all,
            keys_ascending(map@),
            groups_exact(map@, all.take(it.index() as int), t, naming),
            names_covered(map@, all.take(it.index() as int), t, naming),
    {
        let ghost k = it.index() as int;
        let ghost prev = all.take(k);
        let ghost m0 = map@;
        assert(all.take(k + 1) =~= prev.push(dev));
        assert(dev == all[k]);
        match find_resource(table.as_slice(), &dev) {
            Some(row) => {
                let name = advertised_resource_name(row, &dev, naming);
                let ghost n = name@;
                assert(device_resource_name(t, dev, naming) == Some(n));
                let (at, found) = map.insert_device(name, dev);
                proof {
                    assert forall|i: int| 0 <= i < m0.len() implies group_of(prev.push(dev), t, naming, #[trigger] m0[i].0)
                        == if m0[i].0 == n { m0[i].1.push(dev) } else { m0[i].1 } by {
                        lemma_group_push(prev, dev, t, naming, m0[i].0);
                    }
                    lemma_group_push(prev, dev, t, naming, n);
                    if !found {
                        assert forall|j: int| 0 <= j < prev.len() implies device_resource_name(t, #[trigger] prev[j], naming) != Some(n) by {
                            if device_resource_name(t, prev[j], naming) == Some(n) {
                                let i = choose|i: int| 0 <= i < m0.len() && m0[i].0 == n;
                                assert(m0[i].0 == n);
                            }
                        }
                        lemma_group_empty(prev, t, naming, n);
                        assert(group_of(prev.push(dev), t, naming, n) =~= seq![dev]);
                        assert forall|i: int| #![trigger map@[i]] 0 <= i < map@.len() implies map@[i].1 == group_of(prev.push(dev), t, naming, map@[i].0) && map@[i].1.len() > 0 by {
                            if i < at {
                                assert(map@[i] == m0[i]);
                            } else if i > at {
                                assert(map@[i] == m0[i - 1]);
                            }
                        }
                        assert forall|j: int| #![trigger all.take(k + 1)[j]] 0 <= j < k + 1 implies (device_resource_name(t, all.take(k + 1)[j], naming) matches Some(nn) ==> exists|i: int| 0 <= i < map@.len() && map@[i].0 == nn) by {
                            if j < k {
                                assert(all.take(k + 1)[j] == prev[j]);
                                if let Some(nn) = device_resource_name(t, prev[j], naming) {
                                    let i = choose|i: int| 0 <= i < m0.len() && m0[i].0 == nn;
                                    if i < at {
                                        assert(map@[i].0 == nn);
                                    } else {
                                        assert(map@[i + 1].0 == nn);
                                    }
                                }
                            } else {
                                assert(map@[at as int].0 == n);
                            }
                        }
                    } else {
                        assert forall|i: int| #![trigger map@[i]] 0 <= i < map@.len() implies map@[i].1 == group_of(prev.push(dev), t, naming, map@[i].0) && map@[i].1.len() > 0 by {
                            if i != at {
                                assert(map@[i] == m0[i]);
                                assert(m0[i].0 != n) by {
                                    lemma_lex_irreflexive(n);
                                }
                            }
                        }
                        assert forall|j: int| #![trigger all.take(k + 1)[j]] 0 <= j < k + 1 implies (device_resource_name(t, all.take(k + 1)[j], naming) matches Some(nn) ==> exists|i: int| 0 <= i < map@.len() && map@[i].0 == nn) by {
                            if j < k {
                                assert(all.take(k + 1)[j] == prev[j]);
                                if let Some(nn) = device_resource_name(t, prev[j], naming) {
                                    let i = choose|i: int| 0 <= i < m0.len() && m0[i].0 == nn;
                                    assert(map@[i].0 == nn);
                                }
                            } else {
                                assert(map@[at as int].0 == n);
                            }
                        }
                    }
                }
            },
            None => {
                proof {
                    assert(device_resource_name(t, dev, naming) is None);
                    assert forall|i: int| 0 <= i < m0.len() implies group_of(prev.push(dev), t, naming, #[trigger] m0[i].0) == m0[i].1 by {
                        lemma_group_push(prev, dev, t, naming, m0[i].0);
                    }
                    assert forall|j: int| #![trigger all.take(k + 1)[j]] 0 <= j < k + 1 implies (device_resource_name(t, all.take(k + 1)[j], naming) matches Some(nn) ==> exists|i: int| 0 <= i < map@.len() && map@[i].0 == nn) by {
                        if j < k {
                            assert(all.take(k + 1)[j] == prev[j]);
                        }
                    }
                }
            },
        }
    }
    assert(all.take(all.len() as int) =~= all);
    proof {
        lemma_grouping_laws(map@, all, t, naming);
        assert forall|j: int| 0 <= j < all.len() implies (device_resource_name(t, #[trigger] all[j], naming) is Some
            <==> (all[j].vendor == 0x10de && ((all[j].class >> 8) as u16 == 0x0302 || (all[j].class >> 8) as u16 == 0x0680))) by {
            lemma_resources_declare(all[j], naming);
        }
        if naming is Alias {
            assert forall|i: int| 0 <= i < map@.len() implies is_row_name(t, #[trigger] map@[i].0) by {
                assert(names_some_device(all, t, naming, map@[i].0));
                let j = choose|j: int| 0 <= j < all.len() && device_resource_name(t, #[trigger] all[j], naming) == Some(map@[i].0);
                lemma_matched_row_in_table(t, all[j]);
            }
        }
    }
    map
}

} // verus!
