//! The query-routing database: which WHOIS server answers for an object,
//! how to shape the query line for that server, which responses carry a
//! referral, and which response shapes mean an unregistered domain.
//!
//! All six tables are parsed out of whitespace-separated text files with
//! `#` comments; a malformed line or a pattern that does not compile makes
//! construction fail, as a configuration error.

use vstd::prelude::*;
use crate::textutil::{
    ContentLine, content_lines, spec_content_lines_from, spec_fields_from, spec_rest, lower_char,
    ascii_lower, spec_parse_u64, parse_u64, spec_find_str,
};
use crate::ip::{IpAddress, IpConfig, IpVersion, spec_parse_ip, parse_ip};
use crate::query::{WhoisQuery, WhoisQueryType, spec_parse_u32};
use crate::ip::spec_render_ip;
use crate::textutil::spec_dec_chars;
use crate::client::{WhoisClient, Availability};

verus! {

/// Whether a pattern compiles as a byte regex.  Named result of
/// `regex::bytes::Regex::new`: it depends on the pattern alone.
pub uninterp spec fn regex_ok(pat: Seq<char>) -> bool;

/// Whether a byte regex matches a haystack.  Named result of
/// `regex::bytes::Regex::is_match`: it depends on the pattern and the
/// bytes alone.
pub uninterp spec fn regex_matches(pat: Seq<char>, hay: Seq<u8>) -> bool;

/// The first capture group of the first match, decoded as UTF-8; `None`
/// when there is no match, no group, or the capture is not UTF-8.  Named
/// result of `regex::bytes::Regex::captures`.
pub uninterp spec fn regex_capture(pat: Seq<char>, hay: Seq<u8>) -> Option<Seq<char>>;

/// Relies on regex::bytes::Regex::new: whether a pattern compiles depends
/// on the pattern alone.
#[verifier::external_body]
fn regex_compiles(pat: &str) -> (r: bool)
    ensures
        r == regex_ok(pat@),
{
    regex::bytes::Regex::new(pat).is_ok()
}

/// Relies on regex::bytes::Regex::is_match, on a pattern known to compile.
#[verifier::external_body]
fn regex_is_match(pat: &str, hay: &[u8]) -> (r: bool)
    requires
        regex_ok(pat@),
    ensures
        r == regex_matches(pat@, hay@),
{
    match regex::bytes::Regex::new(pat) {
        Ok(re) => re.is_match(hay),
        Err(_) => false,
    }
}

/// Relies on regex::bytes::Regex::captures, on a pattern known to compile:
/// hands back the first capture group of the first match as UTF-8 text.
#[verifier::external_body]
fn regex_capture_one(pat: &str, hay: &[u8]) -> (r: Option<String>)
    requires
        regex_ok(pat@),
    ensures
        (r is Some) == (regex_capture(pat@, hay@) is Some),
        r matches Some(s) ==> regex_capture(pat@, hay@) == Some(s@),
{
    match regex::bytes::Regex::new(pat) {
        Ok(re) => match re.captures(hay) {
            Some(c) => match c.get(1) {
                Some(m) => String::from_utf8(m.as_bytes().to_vec()).ok(),
                None => None,
            },
            None => None,
        },
        Err(_) => None,
    }
}

/// The registry that unmapped ASN ranges fall back to.
pub fn server_arin() -> (r: &'static str)
    ensures
        r@ == "whois.arin.net"@,
{
    "whois.arin.net"
}

/// The registry a bare top-level label routes to.
pub fn server_iana() -> (r: &'static str)
    ensures
        r@ == "whois.iana.org"@,
{
    "whois.iana.org"
}

/// One ASN table row per content line: `<lo> <hi> <host>`.
pub open spec fn spec_asn_rows(lines: Seq<Seq<char>>) -> Option<Seq<(int, int, Seq<char>)>>
    decreases lines.len(),
{
    if lines.len() == 0 {
        Some(Seq::empty())
    } else {
        let fs = spec_fields_from(lines[0], 0);
        if fs.len() < 3 {
            None
        } else {
            match (spec_parse_u64(fs[0]), spec_parse_u64(fs[1])) {
                (Some(lo), Some(hi)) => match spec_asn_rows(lines.drop_first()) {
                    Option::Some(t) => Some(seq![(lo, hi, fs[2])] + t),
                    Option::None => None,
                },
                _ => None,
            }
        }
    }
}

/// Rows are ascending and non-overlapping, each range non-empty.
pub open spec fn spec_asn_sorted(rows: Seq<(int, int, Seq<char>)>) -> bool {
    &&& forall|i: int| 0 <= i < rows.len() ==> (#[trigger] rows[i]).0 <= rows[i].1
    &&& forall|i: int| 0 <= i < rows.len() - 1 ==> (#[trigger] rows[i]).1 < rows[i + 1].0
}

/// The first row whose range holds `asn`.
pub open spec fn spec_asn_find(rows: Seq<(int, int, Seq<char>)>, asn: int) -> Option<int>
    decreases rows.len(),
{
    if rows.len() == 0 {
        None
    } else if rows[0].0 <= asn <= rows[0].1 {
        Some(0int)
    } else {
        match spec_asn_find(rows.drop_first(), asn) {
            Option::Some(i) => Some(i + 1),
            Option::None => None,
        }
    }
}

/// The ordered ASN range table.
pub struct AsnMap {
    table: Vec<(u64, u64, String)>,
}

/// The integer view of stored rows.
pub open spec fn spec_table_view(t: Seq<(u64, u64, String)>) -> Seq<(int, int, Seq<char>)> {
    t.map_values(|t2: (u64, u64, String)| (t2.0 as int, t2.1 as int, t2.2@))
}

impl AsnMap {
    pub closed spec fn rows(self) -> Seq<(int, int, Seq<char>)> {
        spec_table_view(self.table@)
    }

    pub open spec fn wf(self) -> bool {
        spec_asn_sorted(self.rows())
    }

    /// Reads the table: `<lo> <hi> <host>` per line, ascending and
    /// non-overlapping.  `None` on a malformed or out-of-order line.
    #[verifier::rlimit(80)]
    pub fn load(text: &str) -> (r: Option<AsnMap>)
        ensures
            match r {
                Some(m) => {
                    &&& m.wf()
                    &&& spec_asn_rows(spec_content_lines_from(text@, 0)) == Some(m.rows())
                },
                None => match spec_asn_rows(spec_content_lines_from(text@, 0)) {
                    Option::Some(rows) => !spec_asn_sorted(rows),
                    Option::None => true,
                },
            },
    {
        let lines = content_lines(text);
        let ghost lseq = spec_content_lines_from(text@, 0);
        let mut table: Vec<(u64, u64, String)> = Vec::new();
        let mut i: usize = 0;
        proof {
            assert(lseq.skip(0) =~= lseq);
            assert(spec_table_view(table@) =~= Seq::<(int, int, Seq<char>)>::empty());
        }
        while i < lines.len()
            invariant
                i <= lines@.len(),
                lseq == spec_content_lines_from(text@, 0),
                lines@.len() == lseq.len(),
                forall|m: int| 0 <= m < lines@.len() ==> #[trigger] lines@[m].wf_for(lseq[m]),
                spec_asn_rows(lseq) == match spec_asn_rows(lseq.skip(i as int)) {
                    Option::Some(t) => Some(spec_table_view(table@) + t),
                    Option::None => Option::<Seq<(int, int, Seq<char>)>>::None,
                },
                spec_asn_sorted(spec_table_view(table@)),
            decreases lines@.len() - i,
        {
            let ghost tv = spec_table_view(table@);
            proof {
                assert(lseq.skip(i as int).drop_first() =~= lseq.skip(i + 1));
                assert(lseq.skip(i as int)[0] == lseq[i as int]);
                assert(lines@[i as int].wf_for(lseq[i as int]));
            }
            let line = &lines[i];
            if line.fields.len() < 3 {
                proof {
                    assert(spec_asn_rows(lseq.skip(i as int)) is None);
                }
                return None;
            }
            let lo = parse_u64(line.fields[0].as_str());
            let hi = parse_u64(line.fields[1].as_str());
            proof {
                assert(line.fields_view()[0] == line.fields@[0]@);
                assert(line.fields_view()[1] == line.fields@[1]@);
                assert(line.fields_view()[2] == line.fields@[2]@);
            }
            match (lo, hi) {
                (Some(lo), Some(hi)) => {
                    let ghost one = (lo as int, hi as int, lines@[i as int].fields_view()[2]);
                    if table.len() > 0 {
                        let last = table.len() - 1;
                        if table[last].1 >= lo {
                            // out of order: an earlier range reaches into this one
                            proof {
                                match spec_asn_rows(lseq.skip(i as int)) {
                                    Option::Some(t) => {
                                        assert(t[0] == one);
                                        let rows = tv + t;
                                        assert(rows[tv.len() as int] == one);
                                        assert(rows[tv.len() - 1] == tv[tv.len() - 1]);
                                        assert(!spec_asn_sorted(rows));
                                    },
                                    Option::None => {},
                                }
                            }
                            return None;
                        }
                    }
                    if lo > hi {
                        proof {
                            match spec_asn_rows(lseq.skip(i as int)) {
                                Option::Some(t) => {
                                    assert(t[0] == one);
                                    let rows = tv + t;
                                    assert(rows[tv.len() as int] == one);
                                    assert(!spec_asn_sorted(rows));
                                },
                                Option::None => {},
                            }
                        }
                        return None;
                    }
                    let server: String = line.fields[2].clone();
                    table.push((lo, hi, server));
                    proof {
                        let tv2 = spec_table_view(table@);
                        assert(tv2 =~= tv.push((lo as int, hi as int, line.fields@[2]@)));
                        assert forall|a: int| 0 <= a < tv2.len() implies (#[trigger] tv2[a]).0
                            <= tv2[a].1 by {
                            if a < tv.len() {
                                assert(tv2[a] == tv[a]);
                            }
                        }
                        assert forall|a: int| 0 <= a < tv2.len() - 1 implies (#[trigger] tv2[a]).1
                            < tv2[a + 1].0 by {
                            if a < tv.len() - 1 {
                                assert(tv2[a] == tv[a]);
                                assert(tv2[a + 1] == tv[a + 1]);
                            } else {
                                assert(tv2[a] == tv[a]);
                            }
                        }
                        match spec_asn_rows(lseq.skip(i + 1)) {
                            Option::Some(t) => {
                                assert(tv + (seq![(lo as int, hi as int, line.fields@[2]@)] + t)
                                    =~= tv2 + t);
                            },
                            Option::None => {},
                        }
                    }
                    i = i + 1;
                },
                _ => {
                    proof {
                        assert(spec_asn_rows(lseq.skip(i as int)) is None);
                    }
                    return None;
                },
            }
        }
        proof {
            assert(lseq.skip(lseq.len() as int) =~= Seq::<Seq<char>>::empty());
            let tv = spec_table_view(table@);
            assert(tv + Seq::<(int, int, Seq<char>)>::empty() =~= tv);
        }
        Some(AsnMap { table })
    }

    /// The server of the range holding `asn`; ARIN when none does.
    #[verifier::rlimit(90)]
    pub fn find(&self, asn: usize) -> (r: String)
        requires
            self.wf(),
        ensures
            match spec_asn_find(self.rows(), asn as int) {
                Some(i) => r@ == self.rows()[i].2,
                None => r@ == "whois.arin.net"@,
            },
    {
        let ghost rows = self.rows();
        let target: u64 = asn as u64;
        let mut lo: usize = 0;
        let mut hi: usize = self.table.len();
        while lo < hi
            invariant
                lo <= hi <= self.table@.len(),
                rows == self.rows(),
                target == asn as u64,
                target == asn as int,
                self.wf(),
                forall|m: int|
                    0 <= m < rows.len() && (#[trigger] rows[m]).0 <= asn <= rows[m].1 ==> lo <= m
                        < hi,
            decreases hi - lo,
        {
            let mid: usize = lo + (hi - lo) / 2;
            proof {
                vstd::arithmetic::div_mod::lemma_div_is_strictly_smaller((hi - lo) as int, 2);
                vstd::arithmetic::div_mod::lemma_div_pos_is_pos((hi - lo) as int, 2);
                assert(lo <= mid < hi);
            }
            let row_lo: u64 = self.table[mid].0;
            let row_hi: u64 = self.table[mid].1;
            proof {
                assert(rows[mid as int].0 == row_lo && rows[mid as int].1 == row_hi);
            }
            if target < row_lo {
                proof {
                    lemma_bsearch_left(rows, asn as int, mid as int);
                }
                hi = mid;
            } else if target > row_hi {
                proof {
                    lemma_bsearch_right(rows, asn as int, mid as int);
                }
                lo = mid + 1;
            } else {
                proof {
                    lemma_asn_find_unique(rows, mid as int, asn as int);
                }
                let r = self.table[mid].2.clone();
                return r;
            }
        }
        proof {
            if spec_asn_find(rows, asn as int) is Some {
                lemma_asn_find_contains(rows, asn as int);
            }
        }
        let r = server_arin();
        r.to_owned()
    }
}

/// ASCII lower-casing of a name.
pub open spec fn spec_lower(s: Seq<char>) -> Seq<char> {
    s.map_values(|c: char| lower_char(c))
}

/// One domain-to-server row per content line with two fields:
/// `<suffix> <host>`, both lower-cased; other lines are skipped.
pub open spec fn spec_domain_rows(lines: Seq<Seq<char>>) -> Seq<(Seq<char>, Seq<char>)>
    decreases lines.len(),
{
    if lines.len() == 0 {
        Seq::empty()
    } else {
        let fs = spec_fields_from(lines[0], 0);
        (if fs.len() >= 2 {
            seq![(spec_lower(fs[0]), spec_lower(fs[1]))]
        } else {
            Seq::<(Seq<char>, Seq<char>)>::empty()
        }) + spec_domain_rows(lines.drop_first())
    }
}

/// The addresses named by fields `i` onward, in file order.
pub open spec fn spec_addr_list(fs: Seq<Seq<char>>, i: int) -> Option<Seq<IpAddress>>
    decreases fs.len() - i,
{
    if i < 0 {
        spec_addr_list(fs, 0)
    } else if i >= fs.len() {
        Some(Seq::empty())
    } else {
        match spec_parse_ip(fs[i]) {
            Option::None => None,
            Option::Some(a) => match spec_addr_list(fs, i + 1) {
                Option::None => None,
                Option::Some(t) => Some(seq![a] + t),
            },
        }
    }
}

pub open spec fn spec_filter_v4(s: Seq<IpAddress>) -> Seq<IpAddress>
    decreases s.len(),
{
    if s.len() == 0 {
        Seq::empty()
    } else {
        (if s[0] is V4 {
            seq![s[0]]
        } else {
            Seq::<IpAddress>::empty()
        }) + spec_filter_v4(s.drop_first())
    }
}

pub open spec fn spec_filter_v6(s: Seq<IpAddress>) -> Seq<IpAddress>
    decreases s.len(),
{
    if s.len() == 0 {
        Seq::empty()
    } else {
        (if s[0] is V6 {
            seq![s[0]]
        } else {
            Seq::<IpAddress>::empty()
        }) + spec_filter_v6(s.drop_first())
    }
}

/// A server's addresses sorted by the active IP-preference policy: the
/// preferred family first, the other family only when supported.
pub open spec fn spec_order_ips(addrs: Seq<IpAddress>, cfg: IpConfig) -> Seq<IpAddress> {
    if cfg.default_version == (IpVersion { v4: true, v6: false }) {
        spec_filter_v4(addrs) + (if cfg.supported_versions.v6 {
            spec_filter_v6(addrs)
        } else {
            Seq::<IpAddress>::empty()
        })
    } else if cfg.default_version == (IpVersion { v4: false, v6: true }) {
        spec_filter_v6(addrs) + (if cfg.supported_versions.v4 {
            spec_filter_v4(addrs)
        } else {
            Seq::<IpAddress>::empty()
        })
    } else {
        Seq::empty()
    }
}

/// One server-to-addresses row per content line: `<host> <ip> [<ip>...]`,
/// the host lower-cased, the addresses ordered by preference.
pub open spec fn spec_ip_rows(lines: Seq<Seq<char>>, cfg: IpConfig) -> Option<
    Seq<(Seq<char>, Seq<IpAddress>)>,
>
    decreases lines.len(),
{
    if lines.len() == 0 {
        Some(Seq::empty())
    } else {
        let fs = spec_fields_from(lines[0], 0);
        if fs.len() < 1 {
            None
        } else {
            match spec_addr_list(fs, 1) {
                Option::None => None,
                Option::Some(addrs) => match spec_ip_rows(lines.drop_first(), cfg) {
                    Option::None => None,
                    Option::Some(t) => Some(
                        seq![(spec_lower(fs[0]), spec_order_ips(addrs, cfg))] + t,
                    ),
                },
            }
        }
    }
}

/// One query-template row per content line: `<host> <template>`, the
/// template holding `$domain` or `$asn`; the split prefix and suffix are
/// kept.  A line without a template or marker is malformed.
pub open spec fn spec_query_rows(lines: Seq<Seq<char>>) -> Option<
    Seq<(WhoisQueryType, Seq<char>, Seq<char>, Seq<char>)>,
>
    decreases lines.len(),
{
    if lines.len() == 0 {
        Some(Seq::empty())
    } else {
        let fs = spec_fields_from(lines[0], 0);
        if fs.len() < 1 {
            None
        } else {
            match spec_rest(lines[0]) {
                Option::None => None,
                Option::Some(t) => {
                    let dpos = spec_find_str(t, "$domain"@, 0);
                    let apos = spec_find_str(t, "$asn"@, 0);
                    let row = if dpos < t.len() {
                        Some(
                            (WhoisQueryType::Domain, fs[0], t.take(dpos), t.skip(dpos + 7)),
                        )
                    } else if apos < t.len() {
                        Some((WhoisQueryType::AS, fs[0], t.take(apos), t.skip(apos + 4)))
                    } else {
                        None
                    };
                    match row {
                        Option::None => None,
                        Option::Some(row) => match spec_query_rows(lines.drop_first()) {
                            Option::None => None,
                            Option::Some(rest) => Some(seq![row] + rest),
                        },
                    }
                },
            }
        }
    }
}

/// One referral row per content line: `<host> <pattern>`, the pattern being
/// everything after the first space.  A line without a pattern is malformed.
pub open spec fn spec_referral_rows(lines: Seq<Seq<char>>) -> Option<Seq<(Seq<char>, Seq<char>)>>
    decreases lines.len(),
{
    if lines.len() == 0 {
        Some(Seq::empty())
    } else {
        let fs = spec_fields_from(lines[0], 0);
        if fs.len() < 1 {
            None
        } else {
            match spec_rest(lines[0]) {
                Option::None => None,
                Option::Some(t) => match spec_referral_rows(lines.drop_first()) {
                    Option::None => None,
                    Option::Some(rest) => Some(seq![(fs[0], t)] + rest),
                },
            }
        }
    }
}

/// One availability pattern per content line: the whole trimmed line.
pub open spec fn spec_avail_rows(lines: Seq<Seq<char>>) -> Seq<Seq<char>>
    decreases lines.len(),
{
    if lines.len() == 0 {
        Seq::empty()
    } else {
        seq![crate::textutil::spec_trimmed(lines[0])] + spec_avail_rows(lines.drop_first())
    }
}

/// First value stored under key `k`.
pub open spec fn spec_assoc(rows: Seq<(Seq<char>, Seq<char>)>, k: Seq<char>) -> Option<Seq<char>>
    decreases rows.len(),
{
    if rows.len() == 0 {
        None
    } else if rows[0].0 == k {
        Some(rows[0].1)
    } else {
        spec_assoc(rows.drop_first(), k)
    }
}

/// First address list stored under key `k`.
pub open spec fn spec_assoc_ips(rows: Seq<(Seq<char>, Seq<IpAddress>)>, k: Seq<char>) -> Option<
    Seq<IpAddress>,
>
    decreases rows.len(),
{
    if rows.len() == 0 {
        None
    } else if rows[0].0 == k {
        Some(rows[0].1)
    } else {
        spec_assoc_ips(rows.drop_first(), k)
    }
}

/// First template stored under query kind `qt` and host `k`.
pub open spec fn spec_assoc_tpl(
    rows: Seq<(WhoisQueryType, Seq<char>, Seq<char>, Seq<char>)>,
    qt: WhoisQueryType,
    k: Seq<char>,
) -> Option<(Seq<char>, Seq<char>)>
    decreases rows.len(),
{
    if rows.len() == 0 {
        None
    } else if rows[0].0 == qt && rows[0].1 == k {
        Some((rows[0].2, rows[0].3))
    } else {
        spec_assoc_tpl(rows.drop_first(), qt, k)
    }
}

/// The server of the longest registered suffix of `x` after a dot, walking
/// label boundaries left to right from `pos`.
pub open spec fn spec_walk_suffix(
    rows: Seq<(Seq<char>, Seq<char>)>,
    x: Seq<char>,
    pos: int,
) -> Option<Seq<char>>
    decreases x.len() - pos,
{
    if pos < 0 {
        spec_walk_suffix(rows, x, 0)
    } else if pos >= x.len() {
        None
    } else if x[pos] == '.' && spec_assoc(rows, x.skip(pos + 1)) is Some {
        spec_assoc(rows, x.skip(pos + 1))
    } else {
        spec_walk_suffix(rows, x, pos + 1)
    }
}

/// Everything at or after `mid` starts past `asn` when `mid` does.
pub proof fn lemma_bsearch_left(rows: Seq<(int, int, Seq<char>)>, asn: int, mid: int)
    requires
        spec_asn_sorted(rows),
        0 <= mid < rows.len(),
        asn < rows[mid].0,
    ensures
        forall|m: int|
            mid <= m < rows.len() ==> !((#[trigger] rows[m]).0 <= asn <= rows[m].1),
{
    assert forall|m: int|
        mid <= m < rows.len() implies !((#[trigger] rows[m]).0 <= asn <= rows[m].1) by {
        if m > mid {
            lemma_asn_sorted_trans(rows, mid, m);
        }
    }
}

/// Everything at or before `mid` ends before `asn` when `mid` does.
pub proof fn lemma_bsearch_right(rows: Seq<(int, int, Seq<char>)>, asn: int, mid: int)
    requires
        spec_asn_sorted(rows),
        0 <= mid < rows.len(),
        asn > rows[mid].1,
    ensures
        forall|m: int| 0 <= m <= mid ==> !((#[trigger] rows[m]).0 <= asn <= rows[m].1),
{
    assert forall|m: int| 0 <= m <= mid implies !((#[trigger] rows[m]).0 <= asn <= rows[m].1) by {
        if m < mid {
            lemma_asn_sorted_trans(rows, m, mid);
        }
    }
}

/// In a sorted table, an earlier range ends before a later one begins.
pub proof fn lemma_asn_sorted_trans(rows: Seq<(int, int, Seq<char>)>, i: int, j: int)
    requires
        spec_asn_sorted(rows),
        0 <= i < j < rows.len(),
    ensures
        rows[i].1 < rows[j].0,
    decreases j - i,
{
    if i + 1 == j {
    } else {
        lemma_asn_sorted_trans(rows, i + 1, j);
    }
}

/// A containing range is the one `spec_asn_find` names.
pub proof fn lemma_asn_find_unique(rows: Seq<(int, int, Seq<char>)>, i: int, asn: int)
    requires
        spec_asn_sorted(rows),
        0 <= i < rows.len(),
        rows[i].0 <= asn <= rows[i].1,
    ensures
        spec_asn_find(rows, asn) == Some(i),
    decreases i,
{
    if i == 0 {
    } else {
        assert(rows[0].1 < rows[i].0) by {
            lemma_asn_sorted_trans(rows, 0, i);
        }
        assert forall|a: int| 0 <= a < rows.drop_first().len() implies (#[trigger] rows.drop_first()[a])
            == rows[a + 1] by {}
        assert(spec_asn_sorted(rows.drop_first())) by {
            assert forall|a: int| 0 <= a < rows.drop_first().len() implies (#[trigger] rows.drop_first()[a]).0
                <= rows.drop_first()[a].1 by {
                assert(rows.drop_first()[a] == rows[a + 1]);
            }
            assert forall|a: int| 0 <= a < rows.drop_first().len() - 1 implies (#[trigger] rows.drop_first()[a]).1
                < rows.drop_first()[a + 1].0 by {
                assert(rows.drop_first()[a] == rows[a + 1]);
                assert(rows.drop_first()[a + 1] == rows[a + 2]);
            }
        }
        lemma_asn_find_unique(rows.drop_first(), i - 1, asn);
    }
}

/// When `spec_asn_find` names a row, that row's range holds `asn`.
pub proof fn lemma_asn_find_contains(rows: Seq<(int, int, Seq<char>)>, asn: int)
    requires
        spec_asn_find(rows, asn) is Some,
    ensures
        match spec_asn_find(rows, asn) {
            Some(i) => 0 <= i < rows.len() && rows[i].0 <= asn <= rows[i].1,
            None => true,
        },
    decreases rows.len(),
{
    if rows.len() > 0 {
        if rows[0].0 <= asn <= rows[0].1 {
        } else {
            match spec_asn_find(rows.drop_first(), asn) {
                Option::Some(i) => {
                    lemma_asn_find_contains(rows.drop_first(), asn);
                    assert(rows.drop_first()[i] == rows[i + 1]);
                },
                Option::None => {},
            }
        }
    }
}

/// The routing database.
pub struct WhoisDatabase {
    map_domain_servers: Vec<(String, String)>,
    map_server_ips: Vec<(String, Vec<IpAddress>)>,
    map_server_query: Vec<(WhoisQueryType, String, String, String)>,
    map_server_referral: Vec<(String, String)>,
    general_availability: Vec<String>,
    asn_map: AsnMap,
}

impl WhoisDatabase {
    pub closed spec fn domains(self) -> Seq<(Seq<char>, Seq<char>)> {
        self.map_domain_servers@.map_values(|t: (String, String)| (t.0@, t.1@))
    }

    pub closed spec fn server_ips(self) -> Seq<(Seq<char>, Seq<IpAddress>)> {
        self.map_server_ips@.map_values(|t: (String, Vec<IpAddress>)| (t.0@, t.1@))
    }

    pub closed spec fn templates(self) -> Seq<(WhoisQueryType, Seq<char>, Seq<char>, Seq<char>)> {
        self.map_server_query@.map_values(
            |t: (WhoisQueryType, String, String, String)| (t.0, t.1@, t.2@, t.3@),
        )
    }

    pub closed spec fn referrals(self) -> Seq<(Seq<char>, Seq<char>)> {
        self.map_server_referral@.map_values(|t: (String, String)| (t.0@, t.1@))
    }

    pub closed spec fn availability_patterns(self) -> Seq<Seq<char>> {
        self.general_availability@.map_values(|t: String| t@)
    }

    pub closed spec fn asn_rows(self) -> Seq<(int, int, Seq<char>)> {
        self.asn_map.rows()
    }

    /// Every stored pattern compiles and the ASN table is ordered.
    #[verifier::type_invariant]
    pub closed spec fn inv(self) -> bool {
        &&& forall|i: int|
            0 <= i < self.referrals().len() ==> regex_ok((#[trigger] self.referrals()[i]).1)
        &&& forall|i: int|
            0 <= i < self.availability_patterns().len() ==> regex_ok(
                #[trigger] self.availability_patterns()[i],
            )
        &&& self.asn_map.wf()
    }

    /// What `get_server` answers: the routed host (if any) and the wire
    /// query line for it.
    pub open spec fn spec_with_template(
        self,
        qt: WhoisQueryType,
        srv: Seq<char>,
        text: Seq<char>,
    ) -> (Option<Seq<char>>, Seq<char>) {
        match spec_assoc_tpl(self.templates(), qt, srv) {
            Option::Some(ps) => (Some(srv), ps.0 + text + ps.1),
            Option::None => (Some(srv), text + seq!['\n']),
        }
    }

    pub open spec fn spec_get_server(self, q: WhoisQuery) -> (Option<Seq<char>>, Seq<char>) {
        match q {
            WhoisQuery::Domain(x) => match spec_walk_suffix(self.domains(), x@, 0) {
                Option::Some(srv) => self.spec_with_template(WhoisQueryType::Domain, srv, x@),
                Option::None => {
                    if crate::textutil::spec_find(x@, 0, '.') == x@.len() {
                        (Some("whois.iana.org"@), x@ + seq!['\n'])
                    } else {
                        (None, x@ + seq!['\n'])
                    }
                },
            },
            WhoisQuery::AS(n) => {
                let srv = match spec_asn_find(self.asn_rows(), n as int) {
                    Option::Some(i) => self.asn_rows()[i].2,
                    Option::None => "whois.arin.net"@,
                };
                self.spec_with_template(WhoisQueryType::AS, srv, q.spec_text())
            },
            _ => (None, q.spec_text() + seq!['\n']),
        }
    }

    /// `spec_get_server`, stated over the raw input text and the inference
    /// flag instead of the classified query value.
    pub open spec fn spec_route(self, s: Seq<char>, unspecified: bool) -> (
        Option<Seq<char>>,
        Seq<char>,
    ) {
        if unspecified {
            (None, s + seq!['\n'])
        } else {
            match crate::ip::spec_parse_ip(s) {
                Option::Some(a) => (None, spec_render_ip(a) + seq!['\n']),
                Option::None => match spec_parse_u32(s) {
                    Option::Some(v) => {
                        let srv = match spec_asn_find(self.asn_rows(), v) {
                            Option::Some(i) => self.asn_rows()[i].2,
                            Option::None => "whois.arin.net"@,
                        };
                        self.spec_with_template(WhoisQueryType::AS, srv, spec_dec_chars(v as nat))
                    },
                    Option::None => match spec_walk_suffix(self.domains(), s, 0) {
                        Option::Some(srv) => self.spec_with_template(WhoisQueryType::Domain, srv, s),
                        Option::None => {
                            if crate::textutil::spec_find(s, 0, '.') == s.len() {
                                (Some("whois.iana.org"@), s + seq!['\n'])
                            } else {
                                (None, s + seq!['\n'])
                            }
                        },
                    },
                },
            }
        }
    }

    /// Routes a query: the WHOIS host that answers for it (if known) and
    /// the exact line to send, shaped by the host's template when one is
    /// registered, else the query text with a newline.
    pub fn get_server(&self, query: &WhoisQuery) -> (r: (Option<String>, String))
        ensures
            ({
                let (srv, qs) = self.spec_get_server(*query);
                &&& (r.0 is Some) == (srv is Some)
                &&& (r.0 matches Some(s) ==> srv == Some(s@))
                &&& r.1@ == qs
            }),
    {
        proof {
            use_type_invariant(self);
            reveal_strlit("\n");
            assert("\n"@ =~= seq!['\n']);
        }
        match query {
            WhoisQuery::Domain(x) => {
                let chars = crate::textutil::str_chars(x.as_str());
                let n: usize = chars.len();
                let ghost xs = x@;
                let mut pos: usize = 0;
                while pos < n
                    invariant
                        pos <= n,
                        n == xs.len(),
                        chars@ == xs,
                        xs == x@,
                        query == WhoisQuery::Domain(*x),
                        spec_walk_suffix(self.domains(), xs, 0) == spec_walk_suffix(
                            self.domains(),
                            xs,
                            pos as int,
                        ),
                    decreases n - pos,
                {
                    if chars[pos] == '.' {
                        let key: String = x.as_str().substring_char(pos + 1, n).to_owned();
                        proof {
                            assert(key@ =~= xs.skip(pos + 1));
                        }
                        match self.lookup_domain(&key) {
                            Some(srv) => {
                                proof {
                                    assert(spec_walk_suffix(self.domains(), xs, pos as int)
                                        == spec_assoc(self.domains(), xs.skip(pos + 1)));
                                }
                                return self.with_template_exec(
                                    WhoisQueryType::Domain,
                                    srv,
                                    x.clone(),
                                );
                            },
                            None => {},
                        }
                    }
                    pos = pos + 1;
                }
                proof {
                    assert(spec_walk_suffix(self.domains(), xs, n as int) is None);
                }
                let dot = crate::textutil::find_char_at(&chars, 0, '.');
                let mut qs = x.clone();
                qs.append("\n");
                if dot >= n {
                    (Some(server_iana().to_owned()), qs)
                } else {
                    (None, qs)
                }
            },
            WhoisQuery::AS(n) => {
                proof {
                    use_type_invariant(self);
                }
                let num: u32 = *n;
                let srv = self.asn_map.find(num as usize);
                proof {
                    if spec_asn_find(self.asn_rows(), num as int) is Some {
                        lemma_asn_find_contains(self.asn_rows(), num as int);
                    }
                }
                let text = query.to_string();
                self.with_template_exec(WhoisQueryType::AS, srv, text)
            },
            _ => {
                let mut qs = query.to_string();
                qs.append("\n");
                (None, qs)
            },
        }
    }

    /// Applies the host's registered template to the query text, or appends
    /// a newline when the host has none.
    fn with_template_exec(&self, qt: WhoisQueryType, srv: String, text: String) -> (r: (
        Option<String>,
        String,
    ))
        ensures
            ({
                let (s2, qs) = self.spec_with_template(qt, srv@, text@);
                &&& (r.0 is Some) == (s2 is Some)
                &&& (r.0 matches Some(s) ==> s2 == Some(s@))
                &&& r.1@ == qs
            }),
    {
        proof {
            reveal_strlit("\n");
            assert("\n"@ =~= seq!['\n']);
        }
        match self.lookup_template(qt, &srv) {
            Some((prefix, suffix)) => {
                let mut qs = prefix;
                qs.append(text.as_str());
                qs.append(suffix.as_str());
                (Some(srv), qs)
            },
            None => {
                let mut qs = text;
                qs.append("\n");
                (Some(srv), qs)
            },
        }
    }

    /// The host registered for a domain suffix.
    fn lookup_domain(&self, key: &String) -> (r: Option<String>)
        ensures
            (r is Some) == (spec_assoc(self.domains(), key@) is Some),
            r matches Some(s) ==> spec_assoc(self.domains(), key@) == Some(s@),
    {
        let n: usize = self.map_domain_servers.len();
        let mut i: usize = 0;
        while i < n
            invariant
                i <= n,
                n == self.domains().len(),
                forall|m: int| 0 <= m < i ==> (#[trigger] self.domains()[m]).0 != key@,
            decreases n - i,
        {
            if self.map_domain_servers[i].0.eq(key) {
                proof {
                    lemma_assoc_at(self.domains(), key@, i as int);
                }
                return Some(self.map_domain_servers[i].1.clone());
            }
            i = i + 1;
        }
        proof {
            lemma_assoc_none(self.domains(), key@);
        }
        None
    }

    /// The template registered for a host and query kind.
    fn lookup_template(&self, qt: WhoisQueryType, key: &String) -> (r: Option<(String, String)>)
        ensures
            (r is Some) == (spec_assoc_tpl(self.templates(), qt, key@) is Some),
            r matches Some(ps) ==> spec_assoc_tpl(self.templates(), qt, key@) == Some(
                (ps.0@, ps.1@),
            ),
    {
        let n: usize = self.map_server_query.len();
        let mut i: usize = 0;
        while i < n
            invariant
                i <= n,
                n == self.templates().len(),
                forall|m: int|
                    0 <= m < i ==> !((#[trigger] self.templates()[m]).0 == qt
                        && self.templates()[m].1 == key@),
            decreases n - i,
        {
            let row = &self.map_server_query[i];
            if row.0 == qt && row.1.eq(key) {
                proof {
                    lemma_assoc_tpl_at(self.templates(), qt, key@, i as int);
                }
                return Some((row.2.clone(), row.3.clone()));
            }
            i = i + 1;
        }
        proof {
            lemma_assoc_tpl_none(self.templates(), qt, key@);
        }
        None
    }

    /// One address of a server, rotating by attempt: entry `attempt mod n`.
    pub fn get_server_ip(&self, attempt: usize, server: Option<&String>) -> (r: Option<IpAddress>)
        ensures
            match server {
                Option::None => r is None,
                Option::Some(s) => match spec_assoc_ips(self.server_ips(), s@) {
                    Option::None => r is None,
                    Option::Some(ips) => {
                        if ips.len() == 0 {
                            r is None
                        } else {
                            r == Some(ips[attempt as int % ips.len() as int])
                        }
                    },
                },
            },
    {
        match server {
            None => None,
            Some(s) => {
                let n: usize = self.map_server_ips.len();
                let mut i: usize = 0;
                while i < n
                    invariant
                        i <= n,
                        n == self.server_ips().len(),
                        server == Some(s),
                        forall|m: int| 0 <= m < i ==> (#[trigger] self.server_ips()[m]).0 != s@,
                    decreases n - i,
                {
                    if self.map_server_ips[i].0.eq(s) {
                        proof {
                            lemma_assoc_ips_at(self.server_ips(), s@, i as int);
                        }
                        let ips = &self.map_server_ips[i].1;
                        if ips.len() > 0 {
                            return Some(ips[attempt % ips.len()]);
                        } else {
                            return None;
                        }
                    }
                    i = i + 1;
                }
                proof {
                    lemma_assoc_ips_none(self.server_ips(), s@);
                }
                None
            },
        }
    }

    /// The next server a response names: the current server's referral
    /// pattern applied to the accumulated response bytes, first capture
    /// group.
    pub fn get_referral_server(&self, client: &WhoisClient) -> (r: Option<String>)
        ensures
            match client.server {
                Option::None => r is None,
                Option::Some(srv) => match spec_assoc(self.referrals(), srv@) {
                    Option::None => r is None,
                    Option::Some(pat) => {
                        &&& (r is Some) == (regex_capture(pat, client.inbuf@) is Some)
                        &&& (r matches Some(s) ==> regex_capture(pat, client.inbuf@) == Some(s@))
                    },
                },
            },
    {
        proof {
            use_type_invariant(self);
        }
        match &client.server {
            None => None,
            Some(srv) => {
                let n: usize = self.map_server_referral.len();
                let mut i: usize = 0;
                while i < n
                    invariant
                        i <= n,
                        n == self.referrals().len(),
                        client.server == Some(*srv),
                        forall|m: int| 0 <= m < i ==> (#[trigger] self.referrals()[m]).0 != srv@,
                    decreases n - i,
                {
                    if self.map_server_referral[i].0.eq(srv) {
                        proof {
                            use_type_invariant(self);
                            lemma_assoc_at(self.referrals(), srv@, i as int);
                        }
                        let pat = &self.map_server_referral[i].1;
                        return regex_capture_one(pat.as_str(), client.inbuf.as_slice());
                    }
                    i = i + 1;
                }
                proof {
                    lemma_assoc_none(self.referrals(), srv@);
                }
                None
            },
        }
    }

    /// Classifies a response body: `AVAILABLE` exactly when one of the
    /// availability patterns matches it, else `UNAVAILABLE`.
    pub fn availability(&self, client: &WhoisClient) -> (r: Availability)
        ensures
            (r == Availability::AVAILABLE) <==> exists|i: int|
                0 <= i < self.availability_patterns().len() && regex_matches(
                    #[trigger] self.availability_patterns()[i],
                    client.inbuf@,
                ),
            r == Availability::AVAILABLE || r == Availability::UNAVAILABLE,
    {
        proof {
            use_type_invariant(self);
        }
        let n: usize = self.general_availability.len();
        let mut i: usize = 0;
        while i < n
            invariant
                i <= n,
                n == self.availability_patterns().len(),
                forall|m: int|
                    0 <= m < self.availability_patterns().len() ==> regex_ok(
                        #[trigger] self.availability_patterns()[m],
                    ),
                forall|m: int|
                    0 <= m < i ==> !regex_matches(
                        #[trigger] self.availability_patterns()[m],
                        client.inbuf@,
                    ),
            decreases n - i,
        {
            let pat = &self.general_availability[i];
            proof {
                assert(self.availability_patterns()[i as int] == pat@);
            }
            if regex_is_match(pat.as_str(), client.inbuf.as_slice()) {
                return Availability::AVAILABLE;
            }
            i = i + 1;
        }
        Availability::UNAVAILABLE
    }
}

/// Filtering distributes over appending one element.
pub proof fn lemma_filter_v4_push(s: Seq<IpAddress>, a: IpAddress)
    ensures
        spec_filter_v4(s.push(a)) =~= spec_filter_v4(s) + (if a is V4 {
            seq![a]
        } else {
            Seq::<IpAddress>::empty()
        }),
    decreases s.len(),
{
    if s.len() == 0 {
        assert(s.push(a).drop_first() =~= Seq::<IpAddress>::empty());
        assert(s.push(a)[0] == a);
        assert(spec_filter_v4(s.push(a)) == (if a is V4 {
            seq![a]
        } else {
            Seq::<IpAddress>::empty()
        }) + spec_filter_v4(Seq::<IpAddress>::empty()));
        assert(spec_filter_v4(s) =~= Seq::<IpAddress>::empty());
    } else {
        assert(s.push(a)[0] == s[0]);
        assert(s.push(a).drop_first() =~= s.drop_first().push(a));
        lemma_filter_v4_push(s.drop_first(), a);
        assert(spec_filter_v4(s.push(a)) == (if s[0] is V4 {
            seq![s[0]]
        } else {
            Seq::<IpAddress>::empty()
        }) + spec_filter_v4(s.drop_first().push(a)));
        assert(spec_filter_v4(s) == (if s[0] is V4 {
            seq![s[0]]
        } else {
            Seq::<IpAddress>::empty()
        }) + spec_filter_v4(s.drop_first()));
    }
}

pub proof fn lemma_filter_v6_push(s: Seq<IpAddress>, a: IpAddress)
    ensures
        spec_filter_v6(s.push(a)) =~= spec_filter_v6(s) + (if a is V6 {
            seq![a]
        } else {
            Seq::<IpAddress>::empty()
        }),
    decreases s.len(),
{
    if s.len() == 0 {
        assert(s.push(a).drop_first() =~= Seq::<IpAddress>::empty());
        assert(s.push(a)[0] == a);
        assert(spec_filter_v6(s.push(a)) == (if a is V6 {
            seq![a]
        } else {
            Seq::<IpAddress>::empty()
        }) + spec_filter_v6(Seq::<IpAddress>::empty()));
        assert(spec_filter_v6(s) =~= Seq::<IpAddress>::empty());
    } else {
        assert(s.push(a)[0] == s[0]);
        assert(s.push(a).drop_first() =~= s.drop_first().push(a));
        lemma_filter_v6_push(s.drop_first(), a);
        assert(spec_filter_v6(s.push(a)) == (if s[0] is V6 {
            seq![s[0]]
        } else {
            Seq::<IpAddress>::empty()
        }) + spec_filter_v6(s.drop_first().push(a)));
        assert(spec_filter_v6(s) == (if s[0] is V6 {
            seq![s[0]]
        } else {
            Seq::<IpAddress>::empty()
        }) + spec_filter_v6(s.drop_first()));
    }
}

/// Keeps the addresses of one family, in order.
fn filter_family(addrs: &Vec<IpAddress>, want_v4: bool) -> (r: Vec<IpAddress>)
    ensures
        want_v4 ==> r@ =~= spec_filter_v4(addrs@),
        !want_v4 ==> r@ =~= spec_filter_v6(addrs@),
{
    let mut r: Vec<IpAddress> = Vec::new();
    let mut i: usize = 0;
    proof {
        assert(addrs@.take(0) =~= Seq::<IpAddress>::empty());
    }
    while i < addrs.len()
        invariant
            i <= addrs@.len(),
            want_v4 ==> r@ =~= spec_filter_v4(addrs@.take(i as int)),
            !want_v4 ==> r@ =~= spec_filter_v6(addrs@.take(i as int)),
        decreases addrs@.len() - i,
    {
        let a = addrs[i];
        proof {
            assert(addrs@.take(i + 1) =~= addrs@.take(i as int).push(addrs@[i as int]));
            lemma_filter_v4_push(addrs@.take(i as int), addrs@[i as int]);
            lemma_filter_v6_push(addrs@.take(i as int), addrs@[i as int]);
        }
        if a.is_v4() == want_v4 {
            r.push(a);
        }
        i = i + 1;
    }
    proof {
        assert(addrs@.take(addrs@.len() as int) =~= addrs@);
    }
    r
}

/// Orders a server's addresses by the preference policy.
fn order_ips(addrs: &Vec<IpAddress>, cfg: &IpConfig) -> (r: Vec<IpAddress>)
    ensures
        r@ =~= spec_order_ips(addrs@, *cfg),
{
    if cfg.default_version.v4 && !cfg.default_version.v6 {
        let mut r = filter_family(addrs, true);
        if cfg.supported_versions.v6 {
            let mut r6 = filter_family(addrs, false);
            r.append(&mut r6);
        }
        r
    } else if !cfg.default_version.v4 && cfg.default_version.v6 {
        let mut r = filter_family(addrs, false);
        if cfg.supported_versions.v4 {
            let mut r4 = filter_family(addrs, true);
            r.append(&mut r4);
        }
        r
    } else {
        Vec::new()
    }
}

/// A query classified out of text `s` routes as `spec_route(s, …)` says.
pub proof fn lemma_route_is_get_server(
    db: WhoisDatabase,
    q: WhoisQuery,
    s: Seq<char>,
    unspecified: bool,
)
    requires
        unspecified ==> (q matches WhoisQuery::Unspecified(x) && x@ == s),
        !unspecified ==> match crate::ip::spec_parse_ip(s) {
            Option::Some(a) => q == WhoisQuery::IpAddr(a),
            Option::None => match spec_parse_u32(s) {
                Option::Some(v) => q == WhoisQuery::AS(v as u32),
                Option::None => (q matches WhoisQuery::Domain(x) && x@ == s),
            },
        },
    ensures
        db.spec_get_server(q) == db.spec_route(s, unspecified),
{
    if unspecified {
    } else {
        match crate::ip::spec_parse_ip(s) {
            Option::Some(a) => {},
            Option::None => {
                match spec_parse_u32(s) {
                    Option::Some(v) => {
                        assert(q == WhoisQuery::AS(v as u32));
                        assert((v as u32) as int == v);
                    },
                    Option::None => {},
                }
            },
        }
    }
}

/// `spec_assoc` finds the first match.
pub proof fn lemma_assoc_at(rows: Seq<(Seq<char>, Seq<char>)>, k: Seq<char>, idx: int)
    requires
        0 <= idx < rows.len(),
        rows[idx].0 == k,
        forall|m: int| 0 <= m < idx ==> (#[trigger] rows[m]).0 != k,
    ensures
        spec_assoc(rows, k) == Some(rows[idx].1),
    decreases idx,
{
    if idx > 0 {
        lemma_assoc_at(rows.drop_first(), k, idx - 1);
    }
}

pub proof fn lemma_assoc_none(rows: Seq<(Seq<char>, Seq<char>)>, k: Seq<char>)
    requires
        forall|m: int| 0 <= m < rows.len() ==> (#[trigger] rows[m]).0 != k,
    ensures
        spec_assoc(rows, k) is None,
    decreases rows.len(),
{
    if rows.len() > 0 {
        lemma_assoc_none(rows.drop_first(), k);
    }
}

pub proof fn lemma_assoc_ips_at(rows: Seq<(Seq<char>, Seq<IpAddress>)>, k: Seq<char>, idx: int)
    requires
        0 <= idx < rows.len(),
        rows[idx].0 == k,
        forall|m: int| 0 <= m < idx ==> (#[trigger] rows[m]).0 != k,
    ensures
        spec_assoc_ips(rows, k) == Some(rows[idx].1),
    decreases idx,
{
    if idx > 0 {
        lemma_assoc_ips_at(rows.drop_first(), k, idx - 1);
    }
}

pub proof fn lemma_assoc_ips_none(rows: Seq<(Seq<char>, Seq<IpAddress>)>, k: Seq<char>)
    requires
        forall|m: int| 0 <= m < rows.len() ==> (#[trigger] rows[m]).0 != k,
    ensures
        spec_assoc_ips(rows, k) is None,
    decreases rows.len(),
{
    if rows.len() > 0 {
        lemma_assoc_ips_none(rows.drop_first(), k);
    }
}

pub proof fn lemma_assoc_tpl_at(
    rows: Seq<(WhoisQueryType, Seq<char>, Seq<char>, Seq<char>)>,
    qt: WhoisQueryType,
    k: Seq<char>,
    idx: int,
)
    requires
        0 <= idx < rows.len(),
        rows[idx].0 == qt && rows[idx].1 == k,
        forall|m: int| 0 <= m < idx ==> !((#[trigger] rows[m]).0 == qt && rows[m].1 == k),
    ensures
        spec_assoc_tpl(rows, qt, k) == Some((rows[idx].2, rows[idx].3)),
    decreases idx,
{
    if idx > 0 {
        lemma_assoc_tpl_at(rows.drop_first(), qt, k, idx - 1);
    }
}

/// Reads the domain-to-server table.
fn read_domain_servers(text: &str) -> (r: Vec<(String, String)>)
    ensures
        r@.map_values(|t: (String, String)| (t.0@, t.1@)) =~= spec_domain_rows(
            spec_content_lines_from(text@, 0),
        ),
{
    let lines = content_lines(text);
    let ghost lseq = spec_content_lines_from(text@, 0);
    let mut out: Vec<(String, String)> = Vec::new();
    let mut i: usize = 0;
    proof {
        assert(lseq.skip(0) =~= lseq);
        assert(out@.map_values(|t: (String, String)| (t.0@, t.1@)) =~= Seq::<
            (Seq<char>, Seq<char>),
        >::empty());
    }
    while i < lines.len()
        invariant
            i <= lines@.len(),
            lseq == spec_content_lines_from(text@, 0),
            lines@.len() == lseq.len(),
            forall|m: int| 0 <= m < lines@.len() ==> #[trigger] lines@[m].wf_for(lseq[m]),
            spec_domain_rows(lseq) =~= out@.map_values(|t: (String, String)| (t.0@, t.1@))
                + spec_domain_rows(lseq.skip(i as int)),
        decreases lines@.len() - i,
    {
        let ghost ov = out@.map_values(|t: (String, String)| (t.0@, t.1@));
        proof {
            assert(lseq.skip(i as int).drop_first() =~= lseq.skip(i + 1));
            assert(lseq.skip(i as int)[0] == lseq[i as int]);
            assert(lines@[i as int].wf_for(lseq[i as int]));
        }
        let line = &lines[i];
        if line.fields.len() >= 2 {
            let dom = ascii_lower(line.fields[0].as_str());
            let srv = ascii_lower(line.fields[1].as_str());
            proof {
                assert(line.fields_view()[0] == line.fields@[0]@);
                assert(line.fields_view()[1] == line.fields@[1]@);
            }
            out.push((dom, srv));
            proof {
                let ov2 = out@.map_values(|t: (String, String)| (t.0@, t.1@));
                let one = (
                    spec_lower(spec_fields_from(lseq[i as int], 0)[0]),
                    spec_lower(spec_fields_from(lseq[i as int], 0)[1]),
                );
                assert(ov2 =~= ov.push(one));
                let t = spec_domain_rows(lseq.skip(i + 1));
                assert(ov + (seq![one] + t) =~= ov2 + t);
            }
        }
        i = i + 1;
    }
    proof {
        assert(lseq.skip(lseq.len() as int) =~= Seq::<Seq<char>>::empty());
        let ov = out@.map_values(|t: (String, String)| (t.0@, t.1@));
        assert(ov + Seq::<(Seq<char>, Seq<char>)>::empty() =~= ov);
    }
    out
}

/// Reads the server-to-addresses table; `None` on an unreadable address.
fn read_server_ips(text: &str, cfg: &IpConfig) -> (r: Option<Vec<(String, Vec<IpAddress>)>>)
    ensures
        match r {
            Some(v) => spec_ip_rows(spec_content_lines_from(text@, 0), *cfg) == Some(
                v@.map_values(|t: (String, Vec<IpAddress>)| (t.0@, t.1@)),
            ),
            None => spec_ip_rows(spec_content_lines_from(text@, 0), *cfg) is None,
        },
{
    let lines = content_lines(text);
    let ghost lseq = spec_content_lines_from(text@, 0);
    let mut out: Vec<(String, Vec<IpAddress>)> = Vec::new();
    let mut i: usize = 0;
    proof {
        assert(lseq.skip(0) =~= lseq);
        assert(out@.map_values(|t: (String, Vec<IpAddress>)| (t.0@, t.1@)) =~= Seq::<
            (Seq<char>, Seq<IpAddress>),
        >::empty());
    }
    while i < lines.len()
        invariant
            i <= lines@.len(),
            lseq == spec_content_lines_from(text@, 0),
            lines@.len() == lseq.len(),
            forall|m: int| 0 <= m < lines@.len() ==> #[trigger] lines@[m].wf_for(lseq[m]),
            spec_ip_rows(lseq, *cfg) == match spec_ip_rows(lseq.skip(i as int), *cfg) {
                Option::Some(t) => Some(
                    out@.map_values(|t2: (String, Vec<IpAddress>)| (t2.0@, t2.1@)) + t,
                ),
                Option::None => Option::<Seq<(Seq<char>, Seq<IpAddress>)>>::None,
            },
        decreases lines@.len() - i,
    {
        let ghost ov = out@.map_values(|t2: (String, Vec<IpAddress>)| (t2.0@, t2.1@));
        proof {
            assert(lseq.skip(i as int).drop_first() =~= lseq.skip(i + 1));
            assert(lseq.skip(i as int)[0] == lseq[i as int]);
            assert(lines@[i as int].wf_for(lseq[i as int]));
        }
        let line = &lines[i];
        if line.fields.len() < 1 {
            proof {
                assert(spec_ip_rows(lseq.skip(i as int), *cfg) is None);
            }
            return None;
        }
        let ghost fs = spec_fields_from(lseq[i as int], 0);
        let addrs: Vec<IpAddress> = match parse_addr_fields(&line.fields) {
            Some(v) => v,
            None => {
                proof {
                    assert(spec_ip_rows(lseq.skip(i as int), *cfg) is None);
                }
                return None;
            },
        };
        let server = ascii_lower(line.fields[0].as_str());
        proof {
            assert(fs[0] == line.fields@[0]@);
        }
        let ordered = order_ips(&addrs, cfg);
        out.push((server, ordered));
        proof {
            let ov2 = out@.map_values(|t2: (String, Vec<IpAddress>)| (t2.0@, t2.1@));
            let one = (spec_lower(fs[0]), spec_order_ips(addrs@, *cfg));
            assert(ov2 =~= ov.push(one));
            match spec_ip_rows(lseq.skip(i + 1), *cfg) {
                Option::Some(t) => {
                    assert(ov + (seq![one] + t) =~= ov2 + t);
                },
                Option::None => {},
            }
        }
        i = i + 1;
    }
    proof {
        assert(lseq.skip(lseq.len() as int) =~= Seq::<Seq<char>>::empty());
        let ov = out@.map_values(|t2: (String, Vec<IpAddress>)| (t2.0@, t2.1@));
        assert(ov + Seq::<(Seq<char>, Seq<IpAddress>)>::empty() =~= ov);
    }
    Some(out)
}

/// Reads the addresses named by the fields after the first.
fn parse_addr_fields(fields: &Vec<String>) -> (r: Option<Vec<IpAddress>>)
    requires
        fields@.len() >= 1,
    ensures
        ({
            let fs = fields@.map_values(|f: String| f@);
            match r {
                Some(v) => spec_addr_list(fs, 1) == Some(v@),
                None => spec_addr_list(fs, 1) is None,
            }
        }),
{
    let ghost fs = fields@.map_values(|f: String| f@);
    let mut addrs: Vec<IpAddress> = Vec::new();
    let mut j: usize = 1;
    while j < fields.len()
        invariant
            1 <= j <= fields@.len(),
            fs == fields@.map_values(|f: String| f@),
            spec_addr_list(fs, 1) == match spec_addr_list(fs, j as int) {
                Option::Some(t) => Some(addrs@ + t),
                Option::None => Option::<Seq<IpAddress>>::None,
            },
        decreases fields@.len() - j,
    {
        proof {
            assert(fs[j as int] == fields@[j as int]@);
        }
        match parse_ip(fields[j].as_str()) {
            Some(a) => {
                let ghost prev = addrs@;
                addrs.push(a);
                proof {
                    match spec_addr_list(fs, j + 1) {
                        Option::Some(t) => {
                            assert(prev + (seq![a] + t) =~= addrs@ + t);
                        },
                        Option::None => {},
                    }
                }
                j = j + 1;
            },
            None => {
                proof {
                    assert(spec_addr_list(fs, j as int) is None);
                }
                return None;
            },
        }
    }
    proof {
        assert(spec_addr_list(fs, fields@.len() as int) == Some(Seq::<IpAddress>::empty()));
        match spec_addr_list(fs, 1) {
            Option::Some(t) => {
                assert(addrs@ + Seq::<IpAddress>::empty() =~= addrs@);
                assert(t =~= addrs@);
            },
            Option::None => {},
        }
    }
    Some(addrs)
}

/// Reads the query-template table; `None` on a line without a marker.
fn read_server_queries(text: &str) -> (r: Option<Vec<(WhoisQueryType, String, String, String)>>)
    ensures
        match r {
            Some(v) => spec_query_rows(spec_content_lines_from(text@, 0)) == Some(
                v@.map_values(
                    |t: (WhoisQueryType, String, String, String)| (t.0, t.1@, t.2@, t.3@),
                ),
            ),
            None => spec_query_rows(spec_content_lines_from(text@, 0)) is None,
        },
{
    let lines = content_lines(text);
    let ghost lseq = spec_content_lines_from(text@, 0);
    let mut out: Vec<(WhoisQueryType, String, String, String)> = Vec::new();
    let mut i: usize = 0;
    let dpat = crate::textutil::str_chars("$domain");
    let apat = crate::textutil::str_chars("$asn");
    proof {
        reveal_strlit("$domain");
        reveal_strlit("$asn");
        assert(lseq.skip(0) =~= lseq);
        assert(out@.map_values(
            |t: (WhoisQueryType, String, String, String)| (t.0, t.1@, t.2@, t.3@),
        ) =~= Seq::<(WhoisQueryType, Seq<char>, Seq<char>, Seq<char>)>::empty());
    }
    while i < lines.len()
        invariant
            i <= lines@.len(),
            lseq == spec_content_lines_from(text@, 0),
            lines@.len() == lseq.len(),
            dpat@ == "$domain"@,
            apat@ == "$asn"@,
            dpat@.len() == 7,
            apat@.len() == 4,
            forall|m: int| 0 <= m < lines@.len() ==> #[trigger] lines@[m].wf_for(lseq[m]),
            spec_query_rows(lseq) == match spec_query_rows(lseq.skip(i as int)) {
                Option::Some(t) => Some(
                    out@.map_values(
                        |t2: (WhoisQueryType, String, String, String)| (t2.0, t2.1@, t2.2@, t2.3@),
                    ) + t,
                ),
                Option::None => Option::<Seq<(WhoisQueryType, Seq<char>, Seq<char>, Seq<char>)>>::None,
            },
        decreases lines@.len() - i,
    {
        let ghost ov = out@.map_values(
            |t2: (WhoisQueryType, String, String, String)| (t2.0, t2.1@, t2.2@, t2.3@),
        );
        proof {
            assert(lseq.skip(i as int).drop_first() =~= lseq.skip(i + 1));
            assert(lseq.skip(i as int)[0] == lseq[i as int]);
            assert(lines@[i as int].wf_for(lseq[i as int]));
        }
        let line = &lines[i];
        if line.fields.len() < 1 {
            return None;
        }
        let rest: &String = match &line.rest {
            Some(t) => t,
            None => {
                return None;
            },
        };
        let tchars = crate::textutil::str_chars(rest.as_str());
        let tlen: usize = tchars.len();
        let ghost t = rest@;
        let dpos = crate::textutil::find_str_at(&tchars, 0, &dpat);
        proof {
            assert(line.fields_view()[0] == line.fields@[0]@);
        }
        let row: (WhoisQueryType, String, String, String) = if dpos < tlen {
            let prefix = rest.as_str().substring_char(0, dpos).to_owned();
            let suffix = rest.as_str().substring_char(dpos + 7, tlen).to_owned();
            proof {
                assert(prefix@ =~= t.take(dpos as int));
                assert(suffix@ =~= t.skip(dpos + 7));
            }
            (WhoisQueryType::Domain, line.fields[0].clone(), prefix, suffix)
        } else {
            let apos = crate::textutil::find_str_at(&tchars, 0, &apat);
            if apos < tlen {
                let prefix = rest.as_str().substring_char(0, apos).to_owned();
                let suffix = rest.as_str().substring_char(apos + 4, tlen).to_owned();
                proof {
                    assert(prefix@ =~= t.take(apos as int));
                    assert(suffix@ =~= t.skip(apos + 4));
                }
                (WhoisQueryType::AS, line.fields[0].clone(), prefix, suffix)
            } else {
                return None;
            }
        };
        out.push(row);
        proof {
            let ov2 = out@.map_values(
                |t2: (WhoisQueryType, String, String, String)| (t2.0, t2.1@, t2.2@, t2.3@),
            );
            assert(ov2 =~= ov.push((row.0, row.1@, row.2@, row.3@)));
            match spec_query_rows(lseq.skip(i + 1)) {
                Option::Some(tl) => {
                    assert(ov + (seq![(row.0, row.1@, row.2@, row.3@)] + tl) =~= ov2 + tl);
                },
                Option::None => {},
            }
        }
        i = i + 1;
    }
    proof {
        assert(lseq.skip(lseq.len() as int) =~= Seq::<Seq<char>>::empty());
        let ov = out@.map_values(
            |t2: (WhoisQueryType, String, String, String)| (t2.0, t2.1@, t2.2@, t2.3@),
        );
        assert(ov + Seq::<(WhoisQueryType, Seq<char>, Seq<char>, Seq<char>)>::empty() =~= ov);
    }
    Some(out)
}

/// Reads the referral table; `None` on a missing or uncompilable pattern.
fn read_server_referrals(text: &str) -> (r: Option<Vec<(String, String)>>)
    ensures
        match r {
            Some(v) => {
                &&& spec_referral_rows(spec_content_lines_from(text@, 0)) == Some(
                    v@.map_values(|t: (String, String)| (t.0@, t.1@)),
                )
                &&& forall|m: int| 0 <= m < v@.len() ==> regex_ok((#[trigger] v@[m]).1@)
            },
            None => match spec_referral_rows(spec_content_lines_from(text@, 0)) {
                Option::Some(rows) => exists|m: int|
                    0 <= m < rows.len() && !regex_ok((#[trigger] rows[m]).1),
                Option::None => true,
            },
        },
{
    let lines = content_lines(text);
    let ghost lseq = spec_content_lines_from(text@, 0);
    let mut out: Vec<(String, String)> = Vec::new();
    let mut i: usize = 0;
    proof {
        assert(lseq.skip(0) =~= lseq);
        assert(out@.map_values(|t: (String, String)| (t.0@, t.1@)) =~= Seq::<
            (Seq<char>, Seq<char>),
        >::empty());
    }
    while i < lines.len()
        invariant
            i <= lines@.len(),
            lseq == spec_content_lines_from(text@, 0),
            lines@.len() == lseq.len(),
            forall|m: int| 0 <= m < lines@.len() ==> #[trigger] lines@[m].wf_for(lseq[m]),
            spec_referral_rows(lseq) == match spec_referral_rows(lseq.skip(i as int)) {
                Option::Some(t) => Some(
                    out@.map_values(|t2: (String, String)| (t2.0@, t2.1@)) + t,
                ),
                Option::None => Option::<Seq<(Seq<char>, Seq<char>)>>::None,
            },
            forall|m: int| 0 <= m < out@.len() ==> regex_ok((#[trigger] out@[m]).1@),
        decreases lines@.len() - i,
    {
        let ghost ov = out@.map_values(|t2: (String, String)| (t2.0@, t2.1@));
        proof {
            assert(lseq.skip(i as int).drop_first() =~= lseq.skip(i + 1));
            assert(lseq.skip(i as int)[0] == lseq[i as int]);
            assert(lines@[i as int].wf_for(lseq[i as int]));
        }
        let line = &lines[i];
        if line.fields.len() < 1 {
            return None;
        }
        let pat: String = match &line.rest {
            Some(t) => t.clone(),
            None => {
                return None;
            },
        };
        proof {
            assert(line.fields_view()[0] == line.fields@[0]@);
        }
        let ghost patv = pat@;
        if !regex_compiles(pat.as_str()) {
            proof {
                lemma_referral_prefix_bad(lseq, i as int, ov, patv);
            }
            return None;
        }
        out.push((line.fields[0].clone(), pat));
        proof {
            let ov2 = out@.map_values(|t2: (String, String)| (t2.0@, t2.1@));
            let one = (spec_fields_from(lseq[i as int], 0)[0], patv);
            assert(ov2 =~= ov.push(one));
            match spec_referral_rows(lseq.skip(i + 1)) {
                Option::Some(t) => {
                    assert(ov + (seq![one] + t) =~= ov2 + t);
                },
                Option::None => {},
            }
        }
        i = i + 1;
    }
    proof {
        assert(lseq.skip(lseq.len() as int) =~= Seq::<Seq<char>>::empty());
        let ov = out@.map_values(|t2: (String, String)| (t2.0@, t2.1@));
        assert(ov + Seq::<(Seq<char>, Seq<char>)>::empty() =~= ov);
        assert forall|m: int| 0 <= m < ov.len() implies regex_ok((#[trigger] ov[m]).1) by {
            assert(ov[m].1 == out@[m].1@);
        }
    }
    Some(out)
}

/// Reads the availability patterns; `None` on an uncompilable pattern.
fn read_server_availability(text: &str) -> (r: Option<Vec<String>>)
    ensures
        match r {
            Some(v) => {
                &&& v@.map_values(|t: String| t@) =~= spec_avail_rows(
                    spec_content_lines_from(text@, 0),
                )
                &&& forall|m: int| 0 <= m < v@.len() ==> regex_ok((#[trigger] v@[m])@)
            },
            None => exists|m: int|
                0 <= m < spec_avail_rows(spec_content_lines_from(text@, 0)).len() && !regex_ok(
                    #[trigger] spec_avail_rows(spec_content_lines_from(text@, 0))[m],
                ),
        },
{
    let lines = content_lines(text);
    let ghost lseq = spec_content_lines_from(text@, 0);
    let mut out: Vec<String> = Vec::new();
    let mut i: usize = 0;
    proof {
        assert(lseq.skip(0) =~= lseq);
        assert(out@.map_values(|t: String| t@) =~= Seq::<Seq<char>>::empty());
    }
    while i < lines.len()
        invariant
            i <= lines@.len(),
            lseq == spec_content_lines_from(text@, 0),
            lines@.len() == lseq.len(),
            forall|m: int| 0 <= m < lines@.len() ==> #[trigger] lines@[m].wf_for(lseq[m]),
            spec_avail_rows(lseq) =~= out@.map_values(|t: String| t@) + spec_avail_rows(
                lseq.skip(i as int),
            ),
            out@.len() == i,
            forall|m: int| 0 <= m < out@.len() ==> regex_ok((#[trigger] out@[m])@),
        decreases lines@.len() - i,
    {
        let ghost ov = out@.map_values(|t: String| t@);
        proof {
            assert(lseq.skip(i as int).drop_first() =~= lseq.skip(i + 1));
            assert(lseq.skip(i as int)[0] == lseq[i as int]);
            assert(lines@[i as int].wf_for(lseq[i as int]));
        }
        let line = &lines[i];
        let pat: String = line.trimmed.clone();
        if !regex_compiles(pat.as_str()) {
            proof {
                lemma_avail_prefix_bad(lseq, i as int, ov);
            }
            return None;
        }
        out.push(pat);
        proof {
            let ov2 = out@.map_values(|t: String| t@);
            assert(ov2 =~= ov.push(crate::textutil::spec_trimmed(lseq[i as int])));
            assert(ov + (seq![crate::textutil::spec_trimmed(lseq[i as int])] + spec_avail_rows(
                lseq.skip(i + 1),
            )) =~= ov2 + spec_avail_rows(lseq.skip(i + 1)));
        }
        i = i + 1;
    }
    proof {
        assert(lseq.skip(lseq.len() as int) =~= Seq::<Seq<char>>::empty());
        let ov = out@.map_values(|t: String| t@);
        assert(ov + Seq::<Seq<char>>::empty() =~= ov);
    }
    Some(out)
}

/// A bad pattern at line `i` stands in the parsed rows.
proof fn lemma_referral_prefix_bad(
    lseq: Seq<Seq<char>>,
    i: int,
    done: Seq<(Seq<char>, Seq<char>)>,
    pat: Seq<char>,
)
    requires
        0 <= i < lseq.len(),
        spec_referral_rows(lseq) == match spec_referral_rows(lseq.skip(i)) {
            Option::Some(t) => Some(done + t),
            Option::None => Option::<Seq<(Seq<char>, Seq<char>)>>::None,
        },
        spec_rest(lseq[i]) == Some(pat),
        spec_fields_from(lseq[i], 0).len() >= 1,
        !regex_ok(pat),
    ensures
        match spec_referral_rows(lseq) {
            Option::Some(rows) => exists|m: int|
                0 <= m < rows.len() && !regex_ok((#[trigger] rows[m]).1),
            Option::None => true,
        },
{
    assert(lseq.skip(i).drop_first() =~= lseq.skip(i + 1));
    assert(lseq.skip(i)[0] == lseq[i]);
    match spec_referral_rows(lseq.skip(i)) {
        Option::Some(t) => {
            let rows = done + t;
            assert(t.len() >= 1);
            let w = done.len() as int;
            assert(t[0].1 == pat);
            assert(rows[w].1 == pat);
            assert(0 <= w < rows.len() && !regex_ok((rows[w]).1));
            match spec_referral_rows(lseq) {
                Option::Some(rows2) => {
                    assert(rows2 == rows);
                    assert(0 <= w < rows2.len() && !regex_ok((rows2[w]).1));
                    assert(exists|m: int|
                        0 <= m < rows2.len() && !regex_ok((#[trigger] rows2[m]).1));
                },
                Option::None => {
                    assert(false);
                },
            }
        },
        Option::None => {},
    }
}

/// A bad availability pattern at line `i` stands in the parsed rows.
proof fn lemma_avail_prefix_bad(lseq: Seq<Seq<char>>, i: int, done: Seq<Seq<char>>)
    requires
        0 <= i < lseq.len(),
        spec_avail_rows(lseq) =~= done + spec_avail_rows(lseq.skip(i)),
        done.len() == i,
        !regex_ok(crate::textutil::spec_trimmed(lseq[i])),
    ensures
        exists|m: int|
            0 <= m < spec_avail_rows(lseq).len() && !regex_ok(#[trigger] spec_avail_rows(lseq)[m]),
{
    assert(lseq.skip(i).drop_first() =~= lseq.skip(i + 1));
    assert(lseq.skip(i)[0] == lseq[i]);
    let rows = spec_avail_rows(lseq);
    assert(spec_avail_rows(lseq.skip(i))[0] == crate::textutil::spec_trimmed(lseq[i]));
    assert(rows[i] == crate::textutil::spec_trimmed(lseq[i]));
    assert(0 <= i < rows.len() && !regex_ok(rows[i]));
}

impl WhoisDatabase {
    /// Builds the database out of the six data files.  `None` on any
    /// malformed line, unreadable address, out-of-order ASN range, or
    /// pattern that does not compile: a configuration error.
    pub fn new(
        ip_config: &IpConfig,
        domain_servers_text: &str,
        server_ips_text: &str,
        server_queries_text: &str,
        server_referrals_text: &str,
        availability_text: &str,
        asn_text: &str,
    ) -> (r: Option<WhoisDatabase>)
        ensures
            match r {
                Some(db) => {
                    &&& db.domains() =~= spec_domain_rows(
                        spec_content_lines_from(domain_servers_text@, 0),
                    )
                    &&& spec_ip_rows(spec_content_lines_from(server_ips_text@, 0), *ip_config)
                        == Some(db.server_ips())
                    &&& spec_query_rows(spec_content_lines_from(server_queries_text@, 0)) == Some(
                        db.templates(),
                    )
                    &&& spec_referral_rows(spec_content_lines_from(server_referrals_text@, 0))
                        == Some(db.referrals())
                    &&& db.availability_patterns() =~= spec_avail_rows(
                        spec_content_lines_from(availability_text@, 0),
                    )
                    &&& spec_asn_rows(spec_content_lines_from(asn_text@, 0)) == Some(db.asn_rows())
                },
                None => true,
            },
    {
        let asn_map = match AsnMap::load(asn_text) {
            Some(m) => m,
            None => {
                return None;
            },
        };
        let map_domain_servers = read_domain_servers(domain_servers_text);
        let map_server_ips = match read_server_ips(server_ips_text, ip_config) {
            Some(v) => v,
            None => {
                return None;
            },
        };
        let map_server_query = match read_server_queries(server_queries_text) {
            Some(v) => v,
            None => {
                return None;
            },
        };
        let map_server_referral = match read_server_referrals(server_referrals_text) {
            Some(v) => v,
            None => {
                return None;
            },
        };
        let general_availability = match read_server_availability(availability_text) {
            Some(v) => v,
            None => {
                return None;
            },
        };
        let db = WhoisDatabase {
            map_domain_servers,
            map_server_ips,
            map_server_query,
            map_server_referral,
            general_availability,
            asn_map,
        };
        proof {
            assert forall|i: int| 0 <= i < db.referrals().len() implies regex_ok(
                (#[trigger] db.referrals()[i]).1,
            ) by {
                assert(db.referrals()[i].1 == db.map_server_referral@[i].1@);
            }
            assert forall|i: int| 0 <= i < db.availability_patterns().len() implies regex_ok(
                #[trigger] db.availability_patterns()[i],
            ) by {
                assert(db.availability_patterns()[i] == db.general_availability@[i]@);
            }
        }
        Some(db)
    }
}

pub proof fn lemma_assoc_tpl_none(
    rows: Seq<(WhoisQueryType, Seq<char>, Seq<char>, Seq<char>)>,
    qt: WhoisQueryType,
    k: Seq<char>,
)
    requires
        forall|m: int| 0 <= m < rows.len() ==> !((#[trigger] rows[m]).0 == qt && rows[m].1 == k),
    ensures
        spec_assoc_tpl(rows, qt, k) is None,
    decreases rows.len(),
{
    if rows.len() > 0 {
        lemma_assoc_tpl_none(rows.drop_first(), qt, k);
    }
}

} // verus!
