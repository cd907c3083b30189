//! The daemon's request rules: known verbs, request defaults, inline prints on the wire,
//! crosscheck targets and the resources an ingest or enrollment carries.
use vstd::prelude::*;

use crate::config::{MAX_FREQUENCY_BIN, MAX_HASH};
use crate::dump::{DumpResource, ResourceMeta};
use crate::error::Error;
use crate::fingerprint::Fingerprint;
use crate::text::{debug_quoted, decimal, decimal_chars, join, literal, quoted};

verus! {

/// The row limit of a match request that names none.
pub fn default_match_k() -> (k: usize)
    ensures
        k == 10,
{
    10
}

/// The match limit of a crosscheck request that names none.
pub fn default_crosscheck_k() -> (k: usize)
    ensures
        k == 25,
{
    25
}

/// The verbs the daemon serves.
pub open spec fn is_known_verb(v: Seq<char>) -> bool {
    ||| v == "ping"@
    ||| v == "match"@
    ||| v == "span"@
    ||| v == "crosscheck"@
    ||| v == "ingest"@
    ||| v == "retire"@
    ||| v == "stats"@
    ||| v == "extract"@
    ||| v == "enroll"@
    ||| v == "passages"@
    ||| v == "discover"@
}

/// A verb the daemon does not serve is unsupported.
pub fn check_verb(verb: &str) -> (r: Result<(), Error>)
    ensures
        r is Ok <==> is_known_verb(verb@),
        r matches Err(e) ==> e matches Error::Unsupported(m) && m@ == "verb "@ + debug_quoted(verb@),
{
    let v = literal(verb);
    if v == literal("ping") || v == literal("match") || v == literal("span") || v == literal("crosscheck")
        || v == literal("ingest") || v == literal("retire") || v == literal("stats") || v == literal("extract")
        || v == literal("enroll") || v == literal("passages") || v == literal("discover") {
        return Ok(());
    }
    Err(Error::Unsupported(join(literal("verb "), quoted(verb).as_str())))
}

/// Where a match request's prints come from.
pub enum PrintsSource {
    Inline(Vec<Fingerprint>),
    Path(String),
}

/// A wire triple `[hash, t, f]` that fits a print.
pub open spec fn wire_in_range(v: [u64; 3]) -> bool {
    v[0] <= MAX_HASH && v[1] <= u32::MAX && v[2] <= MAX_FREQUENCY_BIN
}

pub open spec fn print_of_wire(v: [u64; 3]) -> Fingerprint {
    Fingerprint { hash: v[0], t: v[1] as u32, f: v[2] as u16 }
}

/// What inline prints give: all of them when every triple fits, else an error naming the
/// first triple that does not.
pub open spec fn inline_outcome(v: Seq<[u64; 3]>, r: Result<PrintsSource, Error>) -> bool {
    match r {
        Ok(PrintsSource::Inline(prints)) => (forall|i: int| 0 <= i < v.len() ==> wire_in_range(#[trigger] v[i]))
            && prints@ == v.map_values(|w: [u64; 3]| print_of_wire(w)),
        Err(Error::BadRequest(m)) => exists|i: int| 0 <= i < v.len() && !wire_in_range(#[trigger] v[i])
            && (forall|j: int| 0 <= j < i ==> wire_in_range(#[trigger] v[j]))
            && m@ == "prints["@ + decimal_chars(i as nat) + "] is outside hash/time/frequency range"@,
        _ => false,
    }
}

/// The prints of a match request: exactly one of inline prints or a prints
/// file; inline triples must fit a print, the first that does not is reported.
pub fn wire_prints(inline: Option<Vec<[u64; 3]>>, path: Option<String>) -> (r: Result<PrintsSource, Error>)
    ensures
        inline is Some == path is Some ==> (r matches Err(Error::BadRequest(m))
            && m@ == "provide exactly one of prints or prints_path"@),
        inline is None && path is Some ==> (r matches Ok(PrintsSource::Path(p)) && p == path->Some_0),
        inline is Some && path is None ==> inline_outcome(inline->Some_0@, r),
{
    match (inline, path) {
        (Some(values), None) => {
            let ghost v = values@;
            let mut prints: Vec<Fingerprint> = Vec::new();
            let mut i: usize = 0;
            while i < values.len()
                invariant
                    v == values@,
                    inline is Some && path is None,
                    inline->Some_0@ == v,
                    i <= v.len(),
                    forall|j: int| 0 <= j < i ==> wire_in_range(#[trigger] v[j]),
                    prints@ == v.subrange(0, i as int).map_values(|w: [u64; 3]| print_of_wire(w)),
                decreases v.len() - i,
            {
                let w = values[i];
                if w[0] > MAX_HASH || w[1] > 0xffff_ffff || w[2] > 512 {
                    let s = join(literal("prints["), decimal(i as u64).as_str());
                    let result: Result<PrintsSource, Error> = Err(Error::BadRequest(join(s, "] is outside hash/time/frequency range")));
                    assert(!wire_in_range(v[i as int]));
                    return result;
                }
                prints.push(Fingerprint::new(w[0], w[1] as u32, w[2] as u16));
                i = i + 1;
                assert(prints@ =~= v.subrange(0, i as int).map_values(|w: [u64; 3]| print_of_wire(w)));
            }
            assert(v.subrange(0, v.len() as int) =~= v);
            Ok(PrintsSource::Inline(prints))
        },
        (None, Some(p)) => Ok(PrintsSource::Path(p)),
        _ => Err(Error::BadRequest(literal("provide exactly one of prints or prints_path"))),
    }
}

pub open spec fn wire_of_print(p: Fingerprint) -> [u64; 3] {
    [p.hash, p.t as u64, p.f as u64]
}

pub open spec fn wire_of_prints(prints: Seq<Fingerprint>) -> Seq<[u64; 3]> {
    prints.map_values(|p: Fingerprint| wire_of_print(p))
}

/// Prints as wire triples `[hash, t, f]`.
pub fn prints_to_wire(prints: &Vec<Fingerprint>) -> (w: Vec<[u64; 3]>)
    ensures
        w@ == wire_of_prints(prints@),
{
    let mut w: Vec<[u64; 3]> = Vec::new();
    let mut i: usize = 0;
    while i < prints.len()
        invariant
            i <= prints@.len(),
            w@ == prints@.subrange(0, i as int).map_values(|p: Fingerprint| wire_of_print(p)),
        decreases prints@.len() - i,
    {
        let p = prints[i];
        w.push([p.hash, p.t as u64, p.f as u64]);
        i = i + 1;
        assert(w@ =~= prints@.subrange(0, i as int).map_values(|p: Fingerprint| wire_of_print(p)));
    }
    assert(prints@.subrange(0, prints@.len() as int) =~= prints@);
    w
}

/// Prints that fit the store's ranges survive the wire: sending them as triples and reading
/// the triples back gives the same prints.
pub proof fn lemma_wire_round_trip(prints: Seq<Fingerprint>)
    requires
        forall|i: int| 0 <= i < prints.len() ==> (#[trigger] prints[i]).hash <= MAX_HASH && prints[i].f <= MAX_FREQUENCY_BIN,
    ensures
        forall|i: int| 0 <= i < prints.len() ==> wire_in_range(#[trigger] wire_of_prints(prints)[i]),
        wire_of_prints(prints).map_values(|w: [u64; 3]| print_of_wire(w)) == prints,
{
    let w = wire_of_prints(prints);
    assert forall|i: int| 0 <= i < prints.len() implies wire_in_range(#[trigger] w[i]) by {
        assert(w[i] == wire_of_print(prints[i]));
    }
    assert(w.map_values(|w: [u64; 3]| print_of_wire(w)) =~= prints) by {
        assert forall|i: int| 0 <= i < prints.len() implies w.map_values(|w: [u64; 3]| print_of_wire(w))[i] == prints[i] by {
            assert(w[i] == wire_of_print(prints[i]));
        }
    }
}

/// A crosscheck request's targets: the string `"all"` or a list of keys.
pub enum Targets {
    All(String),
    Keys(Vec<String>),
}

/// The target keys of a crosscheck request: none for `"all"`, the listed keys otherwise.
pub fn target_keys(targets: Targets) -> (r: Result<Option<Vec<String>>, Error>)
    ensures
        match targets {
            Targets::All(v) => if v@ == "all"@ {
                r matches Ok(None)
            } else {
                r matches Err(Error::BadRequest(m)) && m@ == "targets string must be \"all\", got "@ + debug_quoted(v@)
            },
            Targets::Keys(k) => r matches Ok(Some(keys)) && keys == k,
        },
{
    match targets {
        Targets::All(v) => {
            if v == literal("all") {
                Ok(None)
            } else {
                let s = join(literal("targets string must be \"all\", got "), quoted(v.as_str()).as_str());
                Err(Error::BadRequest(s))
            }
        },
        Targets::Keys(k) => Ok(Some(k)),
    }
}

/// An ingest request names exactly one of a dump directory or wire resources; true when it
/// names the directory.
pub fn ingest_from_dump_dir(has_dump_dir: bool, has_resources: bool) -> (r: Result<bool, Error>)
    ensures
        has_dump_dir != has_resources ==> r == Ok::<bool, Error>(has_dump_dir),
        has_dump_dir == has_resources ==> (r matches Err(Error::BadRequest(m)) && m@ == "provide exactly one of dump_dir or resources"@),
{
    if has_dump_dir == has_resources {
        return Err(Error::BadRequest(literal("provide exactly one of dump_dir or resources")));
    }
    Ok(has_dump_dir)
}

/// The metadata of a wire resource: its duration (as an IEEE-754 bit pattern, `None` when it
/// was not finite and non-negative) must be valid.
pub fn wire_meta(key: String, duration_bits: Option<u64>) -> (r: Result<ResourceMeta, Error>)
    ensures
        match duration_bits {
            Some(bits) => r matches Ok(m) && m.source_id@ == "wire"@ && m.key == key && m.duration_bits == bits
                && m.declared_prints == 0,
            None => r matches Err(Error::BadRequest(m)) && m@ == "resource "@ + debug_quoted(key@)
                + " duration must be finite and non-negative"@,
        },
{
    match duration_bits {
        Some(bits) => Ok(ResourceMeta { source_id: literal("wire"), key, duration_bits: bits, declared_prints: 0 }),
        None => {
            let s = join(literal("resource "), quoted(key.as_str()).as_str());
            Err(Error::BadRequest(join(s, " duration must be finite and non-negative")))
        },
    }
}

/// A resource from metadata and the prints read for it, declaring as many prints as it holds.
pub fn with_prints(meta: ResourceMeta, prints: Vec<Fingerprint>, prints_path: String) -> (d: DumpResource)
    ensures
        d.meta.source_id == meta.source_id,
        d.meta.key == meta.key,
        d.meta.duration_bits == meta.duration_bits,
        d.meta.declared_prints == prints@.len(),
        d.prints@ == prints@,
        d.prints_path == prints_path,
{
    let declared = prints.len() as u64;
    DumpResource {
        meta: ResourceMeta { source_id: meta.source_id, key: meta.key, duration_bits: meta.duration_bits, declared_prints: declared },
        prints,
        prints_path,
    }
}

/// The resource an enrollment ingests: extracted prints under the caller's key.
pub fn enrolled_resource(key: String, duration_bits: u64, prints: Vec<Fingerprint>, audio_path: String) -> (d: DumpResource)
    ensures
        d.meta.source_id@ == "native"@,
        d.meta.key == key,
        d.meta.duration_bits == duration_bits,
        d.meta.declared_prints == prints@.len(),
        d.prints@ == prints@,
        d.prints_path == audio_path,
{
    let meta = ResourceMeta { source_id: literal("native"), key, duration_bits, declared_prints: 0 };
    with_prints(meta, prints, audio_path)
}

} // verus!
