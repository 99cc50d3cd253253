//! Adversarial input through every entry point: none of it may panic, and
//! iteration must always end.

use rusty_rtos_json::search::iterate;
use rusty_rtos_json::validate;

/// Bytes drawn from JSON's own alphabet, which reaches far deeper into the
/// scanners than uniform noise.
const ALPHABET: &[u8] =
    b"{}[]\",:\\/ \t\r\n0123456789.eE+-truefalsnulxXuU\x00\x7f\xc3\xa9\xed\xa0\x80";

/// An LCG, so the "random" inputs are the same on every machine and a failure
/// is reproducible from the seed alone.
struct Lcg(u32);

impl Lcg {
    const fn new(seed: u32) -> Self {
        Self(seed)
    }

    fn next(&mut self) -> u32 {
        self.0 = self.0.wrapping_mul(1_664_525).wrapping_add(1_013_904_223);
        self.0
    }

    fn byte(&mut self) -> u8 {
        (self.next() >> 16) as u8
    }
}

/// Bytes with no structure at all.
#[test]
fn arbitrary_bytes_never_panic() {
    let mut rng = Lcg::new(1);
    for len in 0..256usize {
        let doc: Vec<u8> = (0..len).map(|_| rng.byte()).collect();
        let _ = validate(&doc);
    }
}

/// Bytes drawn only from JSON's own alphabet.
#[test]
fn json_shaped_noise_never_panics() {
    let mut rng = Lcg::new(2);

    for _ in 0..20_000 {
        let len = (rng.next() % 64) as usize;
        let doc: Vec<u8> = (0..len)
            .map(|_| {
                let idx = (rng.next() as usize) % ALPHABET.len();
                ALPHABET.get(idx).copied().unwrap_or(b' ')
            })
            .collect();
        let _ = validate(&doc);
    }
}

/// Every truncation of a valid document.
#[test]
fn every_truncation_of_a_valid_document_is_safe() {
    let docs: [&[u8]; 6] = [
        br#"{"a":[1,2,{"b":"\u00e9"}],"c":true}"#,
        br#"[-0.5e+10,null,false,"\ud83d\ude00"]"#,
        br#"{"nested":{"deep":{"deeper":[[[1]]]}}}"#,
        br#""just a string with \\ and \" in it""#,
        br#"[1e1,1E1,1e+1,1e-1,0.0,-0]"#,
        br#"{"k":"AB","l":[{},[],""]}"#,
    ];

    for doc in docs {
        for cut in 0..=doc.len() {
            let Some(slice) = doc.get(..cut) else {
                continue;
            };
            let _ = validate(slice);
        }
    }
}

/// Every single-byte corruption of a valid document.
#[test]
fn every_single_byte_corruption_is_safe() {
    let doc = br#"{"a":[1,2,{"b":"\u00e9"}],"c":true,"d":-1.5e3}"#;
    let interesting: &[u8] =
        b"\x00\x01\x1f\"\\/{}[],:. \t\r\n0eE+-uUtfn\x7f\x80\xc0\xc1\xe0\xf0\xf5\xff";

    for pos in 0..doc.len() {
        for &byte in interesting {
            let mut corrupted = doc.to_vec();
            if let Some(slot) = corrupted.get_mut(pos) {
                *slot = byte;
            }
            let _ = validate(&corrupted);
        }
    }
}

/// Nesting far past `MAX_DEPTH`, in both bracket kinds and mixed.
#[test]
fn nesting_past_the_limit_is_refused_not_fatal() {
    for depth in [32usize, 33, 64, 1000, 10_000] {
        for open in *b"[{" {
            let doc = vec![open; depth];
            let _ = validate(&doc);
        }
        let mut doc = Vec::new();
        for n in 0..depth {
            doc.push(if n % 2 == 0 { b'[' } else { b'{' });
        }
        let _ = validate(&doc);
    }
}

/// A hundred thousand opening brackets meet the explicit stack and are
/// refused as too deep, through both entry points.
#[test]
fn a_hundred_thousand_brackets_are_refused() {
    let doc = vec![b'['; 100_000];
    assert_eq!(validate(&doc), rusty_rtos_json::Validity::MaxDepthExceeded);
    assert!(!validate_search(&doc, b"[0]"));
    let mut walk = rusty_rtos_json::pairs(&doc);
    assert!(walk.next().is_none());
}

/// The query alphabet: the separator, the brackets and the digits matter.
const QUERY_ALPHABET: &[u8] = b".[]0123456789abxyz-+ \x00\xff";

/// A thin wrapper so the fuzz tests read the same as the corpus ones.
fn validate_search(doc: &[u8], query: &[u8]) -> bool {
    rusty_rtos_json::search::search(doc, query).is_ok()
}

/// Arbitrary documents crossed with arbitrary queries.
#[test]
fn search_never_panics_on_arbitrary_input() {
    let mut rng = Lcg::new(3);

    for _ in 0..20_000 {
        let doc_len = (rng.next() % 48) as usize;
        let doc: Vec<u8> = (0..doc_len)
            .map(|_| {
                let idx = (rng.next() as usize) % ALPHABET.len();
                ALPHABET.get(idx).copied().unwrap_or(b' ')
            })
            .collect();

        let query_len = (rng.next() % 12) as usize;
        let query: Vec<u8> = (0..query_len)
            .map(|_| {
                let idx = (rng.next() as usize) % QUERY_ALPHABET.len();
                QUERY_ALPHABET.get(idx).copied().unwrap_or(b'a')
            })
            .collect();

        let _ = validate_search(&doc, &query);
    }
}

/// Iterating arbitrary documents, driven to exhaustion: the cursor strictly
/// advances on every success.
#[test]
fn iterating_arbitrary_documents_always_terminates() {
    let mut rng = Lcg::new(4);

    for _ in 0..20_000 {
        let len = (rng.next() % 48) as usize;
        let doc: Vec<u8> = (0..len)
            .map(|_| {
                let idx = (rng.next() as usize) % ALPHABET.len();
                ALPHABET.get(idx).copied().unwrap_or(b' ')
            })
            .collect();

        let (mut start, mut next) = (0usize, 0usize);
        let mut previous = 0usize;
        let mut steps = 0usize;

        while iterate(&doc, &mut start, &mut next).is_ok() {
            assert!(
                next > previous,
                "the cursor did not advance on {doc:?}: {previous} -> {next}"
            );
            previous = next;

            steps += 1;
            assert!(
                steps <= doc.len() + 2,
                "more values than bytes in {doc:?} — the cursor is going backwards"
            );
        }
    }
}

/// Every truncation and every single-byte corruption, through the query path.
#[test]
fn the_query_path_survives_truncation_and_corruption() {
    const QUERIES: [&[u8]; 8] = [
        b"a",
        b"a.b",
        b"[0]",
        b"a[0].b",
        b".",
        b"a.",
        b"[",
        b"[99999999999]",
    ];
    let doc = br#"{"a":{"b":[1,2,{"c":"x"}]},"d":[[]],"e":true}"#;

    for cut in 0..=doc.len() {
        let Some(slice) = doc.get(..cut) else {
            continue;
        };
        for query in QUERIES {
            let _ = validate_search(slice, query);
        }
        let (mut start, mut next) = (0usize, 0usize);
        let mut steps = 0usize;
        while iterate(slice, &mut start, &mut next).is_ok() {
            steps += 1;
            if steps > slice.len() + 2 {
                panic!("iterate did not terminate on a {cut}-byte prefix");
            }
        }
    }

    let interesting: &[u8] = b"\x00\"\\{}[],:.0eE+-utfn\x7f\xc0\xf5\xff";
    for pos in 0..doc.len() {
        for &byte in interesting {
            let mut corrupted = doc.to_vec();
            if let Some(slot) = corrupted.get_mut(pos) {
                *slot = byte;
            }
            for query in QUERIES {
                let _ = validate_search(&corrupted, query);
            }
        }
    }
}

/// The `Pairs` walk ends on every prefix of a document, at most one element
/// per byte.
#[test]
fn the_pairs_walk_always_ends() {
    let doc = br#"{"a":{"b":[1,2,{"c":"x"}]},"d":[[]],"e":true}"#;
    for cut in 0..=doc.len() {
        let slice = &doc[..cut];
        let mut walk = rusty_rtos_json::pairs(slice);
        let mut steps = 0usize;
        while walk.next().is_some() {
            steps += 1;
            assert!(steps <= slice.len(), "the walk did not end on a {cut}-byte prefix");
        }
        assert!(walk.next().is_none(), "a finished walk started again");
    }
}
