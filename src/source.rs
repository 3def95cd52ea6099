use vstd::prelude::*;

use crate::address::Ipv4;
use crate::expand::{all_parse, expand_blocks, expansion, parsed_block, texts, ParseError};
use crate::filter::{filter_ips_by_prefix, kept, prefix_bytes};

verus! {

/// The directory service's answer: its success flag, the IPv4 blocks it
/// lists and the error messages it reports.
pub struct Directory {
    pub success: bool,
    pub ipv4_cidrs: Vec<String>,
    pub errors: Vec<String>,
}

/// Why no address pool could be built.
#[derive(Debug)]
pub enum RangeError {
    /// The request could not be sent, or its answer could not be read.
    Fetch(String),
    /// The directory reported failure; its messages joined by ", ".
    Directory(String),
    /// A listed block is not valid IPv4 block text.
    Parse(ParseError),
}

/// The separator between joined messages, ", ".
pub open spec fn separator() -> Seq<char> {
    seq![',', ' ']
}

/// The messages joined by ", ".
pub open spec fn joined(v: Seq<Seq<char>>) -> Seq<char>
    decreases v.len(),
{
    if v.len() == 0 {
        Seq::empty()
    } else if v.len() == 1 {
        v[0]
    } else {
        joined(v.drop_last()) + separator() + v.last()
    }
}

/// Joins the messages with ", " between them.
pub fn join_messages(msgs: &Vec<String>) -> (r: String)
    ensures
        r@ == joined(texts(msgs@)),
{
    let mut out = String::new();
    let mut i: usize = 0;
    while i < msgs.len()
        invariant
            i <= msgs@.len(),
            out@ == joined(texts(msgs@).take(i as int)),
        decreases msgs@.len() - i,
    {
        let ghost before = texts(msgs@).take(i as int);
        if i > 0 {
            let sep = ", ";
            proof {
                reveal_strlit(", ");
                assert(sep@ =~= separator());
            }
            out.append(sep);
        }
        out.append(msgs[i].as_str());
        i = i + 1;
        proof {
            let now = texts(msgs@).take(i as int);
            assert(now.drop_last() =~= before);
            if i == 1 {
                assert(before.len() == 0);
                assert(out@ =~= now[0]);
            }
        }
    }
    proof {
        assert(texts(msgs@).take(i as int) =~= texts(msgs@));
    }
    out
}

impl Directory {
    /// The listed blocks when the directory reports success; otherwise its
    /// messages, joined.
    pub fn into_blocks(self) -> (r: Result<Vec<String>, RangeError>)
        ensures
            self.success ==> r == Ok::<Vec<String>, RangeError>(self.ipv4_cidrs),
            !self.success ==> (r matches Err(RangeError::Directory(m)) && m@ == joined(
                texts(self.errors@),
            )),
    {
        if self.success {
            Ok(self.ipv4_cidrs)
        } else {
            Err(RangeError::Directory(join_messages(&self.errors)))
        }
    }
}

/// Expands the blocks and drops the addresses whose text begins with one of
/// `skip_prefixes`. Fails, with no address, on the first invalid block.
pub fn expand_and_filter(cidrs: &Vec<String>, skip_prefixes: &[String]) -> (r: Result<
    Vec<Ipv4>,
    ParseError,
>)
    ensures
        r is Ok <==> all_parse(texts(cidrs@)),
        r matches Ok(v) ==> v@ == kept(expansion(texts(cidrs@)), prefix_bytes(skip_prefixes@)),
        r matches Err(e) ==> {
            &&& e.index < cidrs@.len()
            &&& e.block@ == cidrs@[e.index as int]@
            &&& parsed_block(cidrs@[e.index as int]@) is None
            &&& all_parse(texts(cidrs@).take(e.index as int))
        },
{
    match expand_blocks(cidrs) {
        Ok(all) => Ok(filter_ips_by_prefix(all, skip_prefixes)),
        Err(e) => Err(e),
    }
}

/// The address pool of a directory answer: its blocks expanded, minus the
/// addresses whose text begins with one of `skip_prefixes`.
pub fn pool_from_directory(dir: Directory, skip_prefixes: &[String]) -> (r: Result<
    Vec<Ipv4>,
    RangeError,
>)
    ensures
        !dir.success ==> (r matches Err(RangeError::Directory(m)) && m@ == joined(
            texts(dir.errors@),
        )),
        dir.success && all_parse(texts(dir.ipv4_cidrs@)) ==> (r matches Ok(v) && v@ == kept(
            expansion(texts(dir.ipv4_cidrs@)),
            prefix_bytes(skip_prefixes@),
        )),
        dir.success && !all_parse(texts(dir.ipv4_cidrs@)) ==> (r matches Err(RangeError::Parse(e))
            && e.index < dir.ipv4_cidrs@.len() && e.block@ == dir.ipv4_cidrs@[e.index as int]@
            && parsed_block(dir.ipv4_cidrs@[e.index as int]@) is None && all_parse(
            texts(dir.ipv4_cidrs@).take(e.index as int),
        )),
{
    match dir.into_blocks() {
        Ok(cidrs) => match expand_and_filter(&cidrs, skip_prefixes) {
            Ok(v) => Ok(v),
            Err(e) => Err(RangeError::Parse(e)),
        },
        Err(e) => Err(e),
    }
}

} // verus!
