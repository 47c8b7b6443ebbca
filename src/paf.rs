//! Records of the pairwise mapping format (PAF).
use vstd::prelude::*;
use crate::text::{
    bounded_text, chars_of, decimal, parse_u16, parse_usize, push_decimal, push_str, split_chars,
    split_on, str_eq, string_of, vec_views,
};

verus! {

#[derive(Debug, Clone)]
pub struct PAF {
    pub qname: String,
    pub qlen: usize,
    pub qstart: usize,
    pub qend: usize,
    // True to forward
    pub relstrand: bool,
    pub tname: String,
    pub tlen: usize,
    pub tstart: usize,
    pub tend: usize,
    pub matchnum: usize,
    pub blocklen: usize,
    pub mapq: u16,
    pub tags: Vec<(String, String, String)>,
}

/// The characters of the three parts of each tag.
pub open spec fn tag_views(tags: Seq<(String, String, String)>) -> Seq<
    (Seq<char>, Seq<char>, Seq<char>),
> {
    tags.map_values(|t: (String, String, String)| (t.0@, t.1@, t.2@))
}

/// The tags that optional fields give: each field of at least three
/// `:`-separated parts gives its first three; other fields give nothing.
pub open spec fn tags_of(fs: Seq<Seq<char>>) -> Seq<(Seq<char>, Seq<char>, Seq<char>)>
    decreases fs.len(),
{
    if fs.len() == 0 {
        Seq::empty()
    } else {
        let parts = split_on(fs.last(), ':');
        tags_of(fs.drop_last()) + if parts.len() >= 3 {
            seq![(parts[0], parts[1], parts[2])]
        } else {
            Seq::empty()
        }
    }
}

/// A field that holds an unsigned number that fits in a `usize`.
pub open spec fn usize_field(f: Seq<char>) -> bool {
    bounded_text(f, usize::MAX as nat) is Some
}

pub open spec fn usize_of(f: Seq<char>) -> usize {
    bounded_text(f, usize::MAX as nat)->0 as usize
}

/// Whether the tab-separated fields `f` make a PAF record: twelve mandatory
/// fields whose numbers read.
pub open spec fn paf_fields_ok(f: Seq<Seq<char>>) -> bool {
    &&& f.len() >= 12
    &&& usize_field(f[1]) && usize_field(f[2]) && usize_field(f[3])
    &&& usize_field(f[6]) && usize_field(f[7]) && usize_field(f[8])
    &&& usize_field(f[9]) && usize_field(f[10])
    &&& bounded_text(f[11], u16::MAX as nat) is Some
}

/// The first tag with key `key`, as its type and value.
pub open spec fn find_tag(tags: Seq<(Seq<char>, Seq<char>, Seq<char>)>, key: Seq<char>) -> Option<
    (Seq<char>, Seq<char>),
>
    decreases tags.len(),
{
    if tags.len() == 0 {
        None
    } else if tags[0].0 == key {
        Some((tags[0].1, tags[0].2))
    } else {
        find_tag(tags.drop_first(), key)
    }
}

/// The text of the tags, tab-separated, each as `key:type:value`.
pub open spec fn tags_text(tags: Seq<(Seq<char>, Seq<char>, Seq<char>)>) -> Seq<char>
    decreases tags.len(),
{
    if tags.len() == 0 {
        Seq::empty()
    } else {
        let t = tags.last();
        let one = t.0 + seq![':'] + t.1 + seq![':'] + t.2;
        if tags.len() == 1 {
            one
        } else {
            tags_text(tags.drop_last()) + seq!['\t'] + one
        }
    }
}

impl PAF {
    /// Reads a record from one tab-separated line: twelve mandatory fields,
    /// then optional `key:type:value` tags.
    #[verifier::loop_isolation(false)]
    pub fn new(line: &str) -> (r: Option<Self>)
        ensures
            ({
                let f = split_on(line@, '\t');
                match r {
                    Some(p) => paf_fields_ok(f) && p.qname@ == f[0] && p.qlen == usize_of(f[1])
                        && p.qstart == usize_of(f[2]) && p.qend == usize_of(f[3]) && p.relstrand
                        == (f[4] == seq!['+']) && p.tname@ == f[5] && p.tlen == usize_of(f[6])
                        && p.tstart == usize_of(f[7]) && p.tend == usize_of(f[8]) && p.matchnum
                        == usize_of(f[9]) && p.blocklen == usize_of(f[10]) && p.mapq == bounded_text(
                        f[11],
                        u16::MAX as nat,
                    )->0 as u16 && tag_views(p.tags@) == tags_of(f.subrange(12, f.len() as int)),
                    None => !paf_fields_ok(f),
                }
            }),
    {
        let chars = chars_of(line);
        let f = split_chars(chars.as_slice(), '\t');
        let ghost fs = split_on(line@, '\t');
        proof {
            assert(vec_views(f@) =~= fs);
        }
        if f.len() < 12 {
            return None;
        }
        proof {
            assert forall|i: int| 0 <= i < f@.len() implies (#[trigger] f@[i])@ == fs[i] by {
                assert(vec_views(f@)[i] == f@[i]@);
            }
        }
        let qlen = match parse_usize(f[1].as_slice()) {
            Some(v) => v,
            None => return None,
        };
        let qstart = match parse_usize(f[2].as_slice()) {
            Some(v) => v,
            None => return None,
        };
        let qend = match parse_usize(f[3].as_slice()) {
            Some(v) => v,
            None => return None,
        };
        let tlen = match parse_usize(f[6].as_slice()) {
            Some(v) => v,
            None => return None,
        };
        let tstart = match parse_usize(f[7].as_slice()) {
            Some(v) => v,
            None => return None,
        };
        let tend = match parse_usize(f[8].as_slice()) {
            Some(v) => v,
            None => return None,
        };
        let matchnum = match parse_usize(f[9].as_slice()) {
            Some(v) => v,
            None => return None,
        };
        let blocklen = match parse_usize(f[10].as_slice()) {
            Some(v) => v,
            None => return None,
        };
        let mapq = match parse_u16(f[11].as_slice()) {
            Some(v) => v,
            None => return None,
        };
        let sym = &f[4];
        let relstrand = sym.len() == 1 && sym[0] == '+';
        proof {
            if relstrand {
                assert(sym@ =~= seq!['+']);
            } else if sym@ == seq!['+'] {
                assert(sym@.len() == 1);
            }
        }
        let mut tags: Vec<(String, String, String)> = Vec::new();
        let mut k: usize = 12;
        while k < f.len()
            invariant
                12 <= k <= f@.len(),
                tag_views(tags@) == tags_of(fs.subrange(12, k as int)),
            decreases f@.len() - k,
        {
            let parts = split_chars(f[k].as_slice(), ':');
            let ghost prev = tags@;
            proof {
                assert(fs.subrange(12, k + 1).drop_last() =~= fs.subrange(12, k as int));
                assert(fs.subrange(12, k + 1).last() == f@[k as int]@);
            }
            if parts.len() >= 3 {
                let t = (
                    string_of(parts[0].as_slice()),
                    string_of(parts[1].as_slice()),
                    string_of(parts[2].as_slice()),
                );
                tags.push(t);
                proof {
                    assert(tag_views(tags@) =~= tag_views(prev) + seq![(t.0@, t.1@, t.2@)]);
                }
            } else {
                proof {
                    assert(tag_views(tags@) =~= tag_views(prev) + Seq::empty());
                }
            }
            k = k + 1;
        }
        proof {
            assert(fs.subrange(12, k as int) =~= fs.subrange(12, fs.len() as int));
        }
        Some(
            PAF {
                qname: string_of(f[0].as_slice()),
                qlen,
                qstart,
                qend,
                relstrand,
                tname: string_of(f[5].as_slice()),
                tlen,
                tstart,
                tend,
                matchnum,
                blocklen,
                mapq,
                tags,
            },
        )
    }

    /// The type and value of the first tag named `key`.
    pub fn get_tag(&self, key: &str) -> (r: Option<(&str, &str)>)
        ensures
            match find_tag(tag_views(self.tags@), key@) {
                Some(tv) => match r {
                    Some(found) => found.0@ == tv.0 && found.1@ == tv.1,
                    None => false,
                },
                None => r is None,
            },
    {
        let ghost views = tag_views(self.tags@);
        proof {
            assert(views.subrange(0, views.len() as int) =~= views);
        }
        let mut k: usize = 0;
        while k < self.tags.len()
            invariant
                k <= self.tags@.len(),
                views == tag_views(self.tags@),
                find_tag(views, key@) == find_tag(
                    views.subrange(k as int, views.len() as int),
                    key@,
                ),
            decreases self.tags@.len() - k,
        {
            let ghost rest = views.subrange(k as int, views.len() as int);
            proof {
                assert(rest[0] == views[k as int]);
                assert(rest.drop_first() =~= views.subrange(k + 1, views.len() as int));
            }
            let t = &self.tags[k];
            if str_eq(t.0.as_str(), key) {
                return Some((t.1.as_str(), t.2.as_str()));
            }
            k = k + 1;
        }
        None
    }

    /// The record as one tab-separated line, the tags last.
    pub fn to_line(&self) -> (r: String)
        ensures
            r@ == self.qname@ + seq!['\t'] + decimal(self.qlen as nat) + seq!['\t'] + decimal(
                self.qstart as nat,
            ) + seq!['\t'] + decimal(self.qend as nat) + seq![
                '\t',
                if self.relstrand {
                    '+'
                } else {
                    '-'
                },
                '\t',
            ] + self.tname@ + seq!['\t'] + decimal(self.tlen as nat) + seq!['\t'] + decimal(
                self.tstart as nat,
            ) + seq!['\t'] + decimal(self.tend as nat) + seq!['\t'] + decimal(
                self.matchnum as nat,
            ) + seq!['\t'] + decimal(self.blocklen as nat) + seq!['\t'] + decimal(
                self.mapq as nat,
            ) + seq!['\t'] + tags_text(tag_views(self.tags@)),
    {
        let mut out: Vec<char> = Vec::new();
        push_str(&mut out, self.qname.as_str());
        out.push('\t');
        push_decimal(&mut out, self.qlen as u64);
        out.push('\t');
        push_decimal(&mut out, self.qstart as u64);
        out.push('\t');
        push_decimal(&mut out, self.qend as u64);
        out.push('\t');
        out.push(
            if self.relstrand {
                '+'
            } else {
                '-'
            },
        );
        out.push('\t');
        let ghost first = out@;
        push_str(&mut out, self.tname.as_str());
        out.push('\t');
        push_decimal(&mut out, self.tlen as u64);
        out.push('\t');
        push_decimal(&mut out, self.tstart as u64);
        out.push('\t');
        push_decimal(&mut out, self.tend as u64);
        out.push('\t');
        let ghost second = out@;
        push_decimal(&mut out, self.matchnum as u64);
        out.push('\t');
        push_decimal(&mut out, self.blocklen as u64);
        out.push('\t');
        push_decimal(&mut out, self.mapq as u64);
        out.push('\t');
        let ghost third = out@;
        self.push_tags(&mut out);
        proof {
            assert(out@ =~= third + tags_text(tag_views(self.tags@)));
        }
        string_of(out.as_slice())
    }

    fn push_tags(&self, out: &mut Vec<char>)
        ensures
            final(out)@ == old(out)@ + tags_text(tag_views(self.tags@)),
    {
        let ghost head = out@;
        let ghost views = tag_views(self.tags@);
        let mut k: usize = 0;
        while k < self.tags.len()
            invariant
                k <= self.tags@.len(),
                views == tag_views(self.tags@),
                out@ == head + tags_text(views.subrange(0, k as int)),
            decreases self.tags@.len() - k,
        {
            let ghost next = views.subrange(0, k + 1);
            proof {
                assert(next.drop_last() =~= views.subrange(0, k as int));
                assert(next.last() == views[k as int]);
            }
            if k > 0 {
                out.push('\t');
            }
            let t = &self.tags[k];
            push_str(out, t.0.as_str());
            out.push(':');
            push_str(out, t.1.as_str());
            out.push(':');
            push_str(out, t.2.as_str());
            proof {
                assert(out@ =~= head + tags_text(next));
            }
            k = k + 1;
        }
        proof {
            assert(views.subrange(0, k as int) =~= views);
        }
    }
}

} // verus!
