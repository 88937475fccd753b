//! Output record encoders (binary length-prefixed and human-readable) and
//! the raw-query suppliers.  The encoders hand back the exact bytes to
//! write; the caller owns the sink.

use vstd::prelude::*;
use crate::client::WhoisClient;
use crate::codec::{encode_record, spec_record};
use vstd::utf8::encode_utf8;
use vstd::string::StrSliceExecFns;
use crate::textutil::{spec_find, find_char_at, str_chars};
use std::collections::VecDeque;

verus! {

/// An output sink strategy: what bytes one finished conversation emits.
pub trait WhoisHandler {
    fn handle(&mut self, client: &WhoisClient) -> Vec<u8>;
}

/// The binary output: `u64 query_len | query | u64 body_len | body`,
/// lengths little-endian.
pub struct WhoisOutputBinary {
}

impl WhoisOutputBinary {
    pub fn new() -> (r: Self) {
        WhoisOutputBinary {  }
    }

    /// The record a finished conversation emits.
    pub fn encode(&self, client: &WhoisClient) -> (r: Vec<u8>)
        ensures
            r@ =~= spec_record(encode_utf8(client.query.spec_text()), client.inbuf@),
    {
        let text = client.query.to_string();
        let qbytes: Vec<u8> = text.as_str().as_bytes_vec();
        encode_record(qbytes.as_slice(), client.inbuf.as_slice())
    }
}

impl WhoisHandler for WhoisOutputBinary {
    fn handle(&mut self, client: &WhoisClient) -> Vec<u8> {
        self.encode(client)
    }
}

/// The human-readable rendering of one record.
pub open spec fn spec_readable_record(text: Seq<char>, body: Seq<u8>) -> Seq<u8> {
    encode_utf8("----- "@) + encode_utf8(text) + encode_utf8(" -----\n\n"@) + body + encode_utf8(
        "\n\n"@,
    )
}

/// The human-readable output: `----- <query> -----`, a blank line, the
/// body, a blank line.
pub struct WhoisOutputReadable {
}

impl WhoisOutputReadable {
    pub fn new() -> (r: Self) {
        WhoisOutputReadable {  }
    }

    /// The block a finished conversation emits.
    pub fn encode(&self, client: &WhoisClient) -> (r: Vec<u8>)
        ensures
            r@ =~= spec_readable_record(client.query.spec_text(), client.inbuf@),
    {
        let text = client.query.to_string();
        let mut r: Vec<u8> = "----- ".as_bytes_vec();
        let mut qb = text.as_str().as_bytes_vec();
        r.append(&mut qb);
        let mut mid = " -----\n\n".as_bytes_vec();
        r.append(&mut mid);
        let mut body: Vec<u8> = Vec::new();
        let mut i: usize = 0;
        while i < client.inbuf.len()
            invariant
                i <= client.inbuf@.len(),
                body@ =~= client.inbuf@.subrange(0, i as int),
            decreases client.inbuf@.len() - i,
        {
            proof {
                assert(client.inbuf@.subrange(0, i + 1) =~= client.inbuf@.subrange(
                    0,
                    i as int,
                ).push(client.inbuf@[i as int]));
            }
            body.push(client.inbuf[i]);
            i = i + 1;
        }
        proof {
            assert(client.inbuf@.subrange(0, client.inbuf@.len() as int) =~= client.inbuf@);
        }
        r.append(&mut body);
        let mut tail = "\n\n".as_bytes_vec();
        r.append(&mut tail);
        r
    }
}

impl WhoisHandler for WhoisOutputReadable {
    fn handle(&mut self, client: &WhoisClient) -> Vec<u8> {
        self.encode(client)
    }
}

/// A source of raw query lines.
pub trait WhoisRawQuerySupplier {
    fn get(&mut self) -> Option<String>;
}

/// The lines of a block of text, split on `'\n'`, without a trailing empty
/// line.
pub open spec fn spec_cmd_lines(s: Seq<char>, from: int) -> Seq<Seq<char>>
    decreases s.len() - from,
{
    if from < 0 {
        spec_cmd_lines(s, 0)
    } else if from >= s.len() {
        Seq::empty()
    } else {
        let e = spec_find(s, from, '\n');
        let e2 = if e < from {
            from
        } else if e > s.len() {
            s.len() as int
        } else {
            e
        };
        let line = s.subrange(from, e2);
        if e2 >= s.len() {
            seq![line]
        } else {
            seq![line] + spec_cmd_lines(s, e2 + 1)
        }
    }
}

/// Queries given on the command line, one per line, handed out in order.
pub struct WhoisRawQueryCmd {
    lines: VecDeque<String>,
}

impl WhoisRawQueryCmd {
    pub closed spec fn lines_view(self) -> Seq<Seq<char>> {
        self.lines@.map_values(|l: String| l@)
    }

    /// Splits the block into its lines.
    pub fn new(string: String) -> (r: Self)
        ensures
            r.lines_view() =~= spec_cmd_lines(string@, 0),
    {
        let chars = str_chars(string.as_str());
        let n: usize = chars.len();
        let mut lines: VecDeque<String> = VecDeque::new();
        let mut pos: usize = 0;
        proof {
            assert(lines@.map_values(|l: String| l@) =~= Seq::<Seq<char>>::empty());
            assert(Seq::<Seq<char>>::empty() + spec_cmd_lines(string@, 0) =~= spec_cmd_lines(
                string@,
                0,
            ));
        }
        while pos < n
            invariant
                pos <= n,
                n == string@.len(),
                chars@ == string@,
                spec_cmd_lines(string@, 0) =~= lines@.map_values(|l: String| l@) + spec_cmd_lines(
                    string@,
                    pos as int,
                ),
            decreases n - pos,
        {
            let ghost lv = lines@.map_values(|l: String| l@);
            let e = find_char_at(&chars, pos, '\n');
            let line: String = string.as_str().substring_char(pos, e).to_owned();
            lines.push_back(line);
            proof {
                let lv2 = lines@.map_values(|l: String| l@);
                assert(lv2 =~= lv.push(string@.subrange(pos as int, e as int)));
                if e < n {
                    assert(lv + (seq![string@.subrange(pos as int, e as int)] + spec_cmd_lines(
                        string@,
                        e + 1,
                    )) =~= lv2 + spec_cmd_lines(string@, e + 1));
                } else {
                    assert(lv + seq![string@.subrange(pos as int, e as int)] =~= lv2);
                    assert(lv2 + spec_cmd_lines(string@, n as int) =~= lv2);
                }
            }
            if e >= n {
                pos = n;
            } else {
                pos = e + 1;
            }
        }
        proof {
            assert(lines@.map_values(|l: String| l@) + spec_cmd_lines(string@, n as int)
                =~= lines@.map_values(|l: String| l@));
        }
        WhoisRawQueryCmd { lines }
    }

    /// The next line, front first.
    pub fn get(&mut self) -> (r: Option<String>)
        ensures
            old(self).lines_view().len() == 0 ==> r is None && final(self).lines_view()
                == old(self).lines_view(),
            old(self).lines_view().len() > 0 ==> (r matches Some(s) && s@ == old(
                self,
            ).lines_view()[0]) && final(self).lines_view() =~= old(self).lines_view().drop_first(),
    {
        let r = self.lines.pop_front();
        proof {
            if old(self).lines@.len() > 0 {
                assert(self.lines_view() =~= old(self).lines_view().drop_first());
            }
        }
        r
    }
}

impl WhoisRawQuerySupplier for WhoisRawQueryCmd {
    fn get(&mut self) -> Option<String> {
        WhoisRawQueryCmd::get(self)
    }
}

} // verus!