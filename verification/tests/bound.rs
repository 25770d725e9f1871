//! The ceilings of blocks of postings on concrete postings.
use kura_core::bound::{Ceilings, Reader, Writer, BLOCK_SIZE, SCALE, WIDE_SCALE};
use kura_core::codec::{put_u32, put_u64};
use kura_core::Error;

/// The ceilings of a term that has none.
const NONE: Ceilings<'static> = Ceilings {
    narrow: &[],
    wide: &[],
};

/// A writer of ceilings that takes a posting as its frequency and its length.
struct Scored {
    writer: Writer,
    base: f32,
    per_word: f32,
}

impl Scored {
    fn new(k1: f32, b: f32, average: f32) -> Self {
        let average = average.max(1.0);
        Self {
            writer: Writer::new(k1.to_bits(), b.to_bits(), average.to_bits()),
            base: k1 * (1.0 - b),
            per_word: k1 * b / average,
        }
    }

    fn push(&mut self, frequency: u32, length: u32) {
        let norm = self.per_word.mul_add(length as f32, self.base);
        let saturation = frequency as f32 / (frequency as f32 + norm);
        self.writer.push(
            (saturation * f32::from(SCALE)).ceil().clamp(0.0, f32::from(SCALE)) as u8,
            (saturation * f32::from(WIDE_SCALE))
                .ceil()
                .clamp(0.0, f32::from(WIDE_SCALE)) as u16,
        );
    }

    fn finish_term(&mut self, offset: u64) {
        self.writer.finish_term(offset);
    }

    fn finish(self) -> Vec<u8> {
        self.writer.finish()
    }
}

/// What a stored ceiling means, as a fraction of a term's best.
fn ceiling(quantum: u8) -> f32 {
    f32::from(quantum) / f32::from(SCALE)
}

/// What a block reaches, as a fraction of the most the term can contribute.
fn reach(ceilings: &Ceilings<'_>, block: usize) -> Option<f32> {
    let (quantum, scale) = ceilings.fraction(block)?;
    Some(f32::from(quantum) / f32::from(scale))
}

fn parameters(reader: &Reader<'_>) -> (f32, f32) {
    let (k1, b) = reader.parameters();
    (f32::from_bits(k1), f32::from_bits(b))
}

fn average_length(reader: &Reader<'_>) -> f32 {
    f32::from_bits(reader.average_length())
}

/// The ceiling a block of these postings should end up with, computed the
/// long way so the test does not repeat the code it is checking.
fn best(postings: &[(u32, u32)], k1: f32, b: f32, average: f32) -> f32 {
    postings
        .iter()
        .map(|&(frequency, length)| {
            let norm = k1 * (1.0 - b + b * length as f32 / average.max(1.0));
            frequency as f32 / (frequency as f32 + norm)
        })
        .fold(0.0f32, f32::max)
}

fn one_term(postings: &[(u32, u32)], k1: f32, b: f32, average: f32) -> Vec<u8> {
    let mut writer = Scored::new(k1, b, average);
    for &(frequency, length) in postings {
        writer.push(frequency, length);
    }
    writer.finish_term(0);
    writer.finish()
}

#[test]
fn a_term_with_no_whole_block_is_not_worth_an_entry() {
    let postings: Vec<(u32, u32)> = (0..BLOCK_SIZE - 1).map(|_| (3, 500)).collect();
    let bytes = one_term(&postings, 1.2, 0.75, 400.0);
    let reader = Reader::new(&bytes).expect("reads");
    assert!(reader.is_empty());
    assert_eq!(reader.get(0), &[] as &[u8]);
}

#[test]
fn a_whole_block_and_its_leftovers_both_get_a_ceiling() {
    let postings: Vec<(u32, u32)> = (0..BLOCK_SIZE + 5).map(|_| (3, 500)).collect();
    let bytes = one_term(&postings, 1.2, 0.75, 400.0);
    let reader = Reader::new(&bytes).expect("reads");
    assert_eq!(reader.get(0).len(), 2);
}

#[test]
fn a_block_that_ends_exactly_has_no_leftovers() {
    let postings: Vec<(u32, u32)> = (0..BLOCK_SIZE * 2).map(|_| (3, 500)).collect();
    let bytes = one_term(&postings, 1.2, 0.75, 400.0);
    let reader = Reader::new(&bytes).expect("reads");
    assert_eq!(reader.get(0).len(), 2);
}

#[test]
fn the_ceiling_is_never_below_the_best_posting_in_the_block() {
    // The property the whole thing rests on. A ceiling under the truth
    // skips a block that held an answer.
    let (k1, b, average) = (1.2f32, 0.75f32, 400.0f32);
    let mut postings: Vec<(u32, u32)> = Vec::new();
    for at in 0..BLOCK_SIZE {
        postings.push((at as u32 % 17 + 1, (at as u32 % 91) * 40 + 1));
    }
    let bytes = one_term(&postings, k1, b, average);
    let reader = Reader::new(&bytes).expect("reads");
    let stored = ceiling(reader.get(0)[0]);
    let truth = best(&postings, k1, b, average);
    assert!(
        stored >= truth,
        "stored {stored} is under the truth {truth}"
    );
    assert!(
        stored - truth < 1.0 / f32::from(SCALE),
        "stored {stored} is more than a quantum above {truth}"
    );
}

#[test]
fn the_ceiling_is_much_tighter_than_the_frequency_bound_it_replaces() {
    // The number that justifies the section existing. A bound from the
    // frequency alone pins the normalisation to the shortest document that
    // could exist, so it is loose by whatever the real normalisation comes
    // to, and on a document several times the average length that is a
    // factor of four.
    let (k1, b, average) = (1.2f32, 0.75f32, 400.0f32);
    let postings: Vec<(u32, u32)> = (0..BLOCK_SIZE)
        .map(|at| (at as u32 % 3 + 1, 3000))
        .collect();
    let bytes = one_term(&postings, k1, b, average);
    let reader = Reader::new(&bytes).expect("reads");
    let now = ceiling(reader.get(0)[0]);
    let truth = best(&postings, k1, b, average);

    let frequency = postings.iter().map(|p| p.0).max().expect("some") as f32;
    let floor = k1 * (1.0 - b);
    let before = frequency / (frequency + floor);

    assert!(
        before > truth * 3.0,
        "the frequency bound {before} was meant to be far above the truth {truth}"
    );
    assert!(
        now - truth < 1.0 / f32::from(SCALE),
        "the ceiling {now} was meant to be on top of the truth {truth}"
    );
}

#[test]
fn a_block_holding_a_document_past_the_saturating_frequency_still_bounds_it() {
    // A bound of one byte of frequency is the same for every block with a
    // document holding the term two hundred and fifty five times or more,
    // whatever else is in it. Two blocks that differ only
    // in how long that document is have to get different ceilings here.
    let (k1, b, average) = (1.2f32, 0.75f32, 400.0f32);
    let short: Vec<(u32, u32)> = (0..BLOCK_SIZE).map(|_| (400, 500)).collect();
    let long: Vec<(u32, u32)> = (0..BLOCK_SIZE).map(|_| (400, 200_000)).collect();
    let short = Reader::new(&one_term(&short, k1, b, average))
        .expect("reads")
        .get(0)[0];
    let long = Reader::new(&one_term(&long, k1, b, average))
        .expect("reads")
        .get(0)[0];
    assert!(
        ceiling(long) < ceiling(short),
        "the long document should bound lower, got {long} against {short}"
    );
}

#[test]
fn terms_are_found_by_the_offset_of_their_posting_list() {
    let mut writer = Scored::new(1.2, 0.75, 400.0);
    for offset in [10u64, 4000, 900_000] {
        for at in 0..BLOCK_SIZE {
            writer.push(at as u32 % 5 + 1, 100);
        }
        writer.finish_term(offset);
    }
    let bytes = writer.finish();
    let reader = Reader::new(&bytes).expect("reads");
    assert_eq!(reader.len(), 3);
    for offset in [10u64, 4000, 900_000] {
        assert_eq!(reader.get(offset).len(), 1, "offset {offset}");
    }
    for offset in [0u64, 11, 3999, 900_001, u64::MAX] {
        assert_eq!(reader.get(offset), &[] as &[u8], "offset {offset}");
    }
}

#[test]
fn the_parameters_come_back_as_they_went_in() {
    let bytes = Scored::new(1.7, 0.3, 400.0).finish();
    let reader = Reader::new(&bytes).expect("reads");
    let (k1, b) = parameters(&reader);
    assert!((k1 - 1.7).abs() < 1e-9, "{k1}");
    assert!((b - 0.3).abs() < 1e-9, "{b}");
    assert!((average_length(&reader) - 400.0).abs() < 1e-9);
}

#[test]
fn an_average_length_of_zero_does_not_divide_by_it() {
    let postings: Vec<(u32, u32)> = (0..BLOCK_SIZE).map(|_| (1, 0)).collect();
    let bytes = one_term(&postings, 1.2, 0.75, 0.0);
    let reader = Reader::new(&bytes).expect("reads");
    assert!(ceiling(reader.get(0)[0]) <= 1.0);
}

#[test]
fn a_truncated_section_is_an_error_not_a_panic() {
    let mut writer = Scored::new(1.2, 0.75, 400.0);
    for offset in [0u64, 500] {
        for at in 0..BLOCK_SIZE {
            writer.push(at as u32 % 5 + 1, 100);
        }
        writer.finish_term(offset);
    }
    let bytes = writer.finish();
    for cut in 0..bytes.len() {
        // A prefix that parses has to answer every lookup without reading
        // past what is there, and one that does not parse has to say so
        // rather than panic.
        if let Ok(reader) = Reader::new(&bytes[..cut]) {
            for offset in [0u64, 500, 900_000] {
                let _ = reader.get(offset);
            }
        }
    }
}

#[test]
fn a_directory_out_of_order_is_refused() {
    let mut bytes = Vec::new();
    put_u32(&mut bytes, 2);
    put_u32(&mut bytes, 1.2f32.to_bits());
    put_u32(&mut bytes, 0.75f32.to_bits());
    put_u32(&mut bytes, 400.0f32.to_bits());
    put_u64(&mut bytes, 900);
    put_u32(&mut bytes, 0);
    put_u64(&mut bytes, 10);
    put_u32(&mut bytes, 1);
    bytes.extend_from_slice(&[200, 200]);
    assert!(matches!(
        Reader::new(&bytes),
        Err(Error::NotSorted { at: 1 })
    ));
}

/// The wide bytes for these ceilings, so a test can build a `Ceilings` at
/// either width without going through a whole segment.
fn widen(quanta: &[u16]) -> Vec<u8> {
    quanta
        .iter()
        .flat_map(|quantum| quantum.to_le_bytes())
        .collect()
}

#[test]
fn the_blocks_come_back_largest_ceiling_first_and_ties_in_document_order() {
    let narrow = [3u8, 200, 7, 200, 0, 255];
    let ceilings = Ceilings {
        narrow: &narrow,
        wide: &[],
    };
    assert_eq!(ceilings.order(), [5, 1, 3, 2, 0, 4]);
    assert_eq!(NONE.order(), Vec::<u32>::new());
    assert_eq!(
        Ceilings {
            narrow: &[9],
            wide: &[]
        }
        .order(),
        [0]
    );

    // Every block once and none of them twice, which is what the walk
    // relies on to score every document in a block it does not prune.
    let narrow: Vec<u8> = (0..1_000u32)
        .map(|i| u8::try_from((i * 37) % 256).expect("a remainder of 256 is a byte"))
        .collect();
    let mut seen = Ceilings {
        narrow: &narrow,
        wide: &[],
    }
    .order();
    assert_eq!(seen.len(), 1_000);
    seen.sort_unstable();
    assert!(seen.iter().copied().eq(0..1_000));
}

#[test]
fn the_wide_blocks_come_back_in_exactly_descending_order() {
    // Values chosen so the low byte disagrees with the high byte, which is
    // what a radix sort that ran only one of its two passes would get wrong.
    let quanta = [0x01_00u16, 0x00_FF, 0x02_00, 0x00_01, 0x02_00];
    let wide = widen(&quanta);
    let ceilings = Ceilings {
        narrow: &[0u8; 5],
        wide: &wide,
    };
    assert_eq!(ceilings.order(), [2, 4, 0, 1, 3]);

    let quanta: Vec<u16> = (0..2_000u32)
        .map(|i| {
            u16::try_from((i * 7_919) % 65_536).expect("a remainder of 65536 is two bytes")
        })
        .collect();
    let wide = widen(&quanta);
    let order = Ceilings {
        narrow: &vec![0u8; quanta.len()],
        wide: &wide,
    }
    .order();
    assert_eq!(order.len(), quanta.len());
    for pair in order.windows(2) {
        let (before, after) = (quanta[pair[0] as usize], quanta[pair[1] as usize]);
        assert!(before >= after, "{before} came before {after}");
    }
    let mut seen = order;
    seen.sort_unstable();
    assert!(seen.iter().copied().eq(0..2_000));
}

#[test]
fn a_wide_section_that_is_not_twice_the_narrow_one_is_ignored() {
    // There is no directory over the wide section, so its length is the
    // whole of what says it belongs to this segment. A section that is not
    // this one's would be read as ceilings that do not bound the blocks.
    let postings: Vec<(u32, u32)> = (0..BLOCK_SIZE * 3)
        .map(|at| (at as u32 % 9 + 1, 500))
        .collect();
    let mut writer = Scored::new(1.2, 0.75, 400.0);
    for &(frequency, length) in &postings {
        writer.push(frequency, length);
    }
    writer.finish_term(0);
    let wide = writer.writer.wide().to_vec();
    let bytes = writer.finish();

    let reader = Reader::new(&bytes).expect("reads");
    assert_eq!(wide.len(), reader.get(0).len() * 2);
    assert!(reader.with_wide(&wide).is_wide());
    assert!(!reader.with_wide(&wide[..wide.len() - 2]).is_wide());
    assert!(!reader.with_wide(&[]).is_wide());
    let mut longer = wide.clone();
    longer.extend_from_slice(&[0, 0]);
    assert!(!reader.with_wide(&longer).is_wide());
}

#[test]
fn the_wide_ceiling_is_the_same_saturation_at_a_finer_grain() {
    let (k1, b, average) = (1.2f32, 0.75f32, 400.0f32);
    let postings: Vec<(u32, u32)> = (0..BLOCK_SIZE)
        .map(|at| (at as u32 % 17 + 1, (at as u32 % 91) * 40 + 1))
        .collect();
    let mut writer = Scored::new(k1, b, average);
    for &(frequency, length) in &postings {
        writer.push(frequency, length);
    }
    writer.finish_term(0);
    let wide = writer.writer.wide().to_vec();
    let bytes = writer.finish();
    let reader = Reader::new(&bytes).expect("reads");

    let truth = best(&postings, k1, b, average);
    let narrow = reach(&reader.ceilings(0), 0).expect("a block");
    let wide = reach(&reader.with_wide(&wide).ceilings(0), 0).expect("a block");
    // Both bound it, and the wide one is the tighter of the two, which is
    // the entire reason the section exists.
    assert!(wide >= truth, "wide {wide} is under the truth {truth}");
    assert!(narrow >= wide, "narrow {narrow} is under the wide {wide}");
    assert!(
        wide - truth < 1.0 / f32::from(WIDE_SCALE),
        "wide {wide} is more than a quantum above {truth}"
    );
}

#[test]
fn a_segment_without_the_wide_section_reads_its_ceilings_from_the_narrow_one() {
    let postings: Vec<(u32, u32)> = (0..=BLOCK_SIZE).map(|_| (3, 500)).collect();
    let bytes = one_term(&postings, 1.2, 0.75, 400.0);
    let reader = Reader::new(&bytes).expect("reads");
    let ceilings = reader.ceilings(0);
    assert!(!ceilings.is_wide());
    assert_eq!(ceilings.len(), 2);
    assert_eq!(reach(&ceilings, 0), Some(ceiling(reader.get(0)[0])));
    assert_eq!(reach(&ceilings, 2), None);
    assert!(reader.ceilings(9_000).is_empty());
}


#[test]
fn a_written_section_reads_back_at_both_widths() {
    let mut writer = Writer::new(1, 2, 3);
    for at in 0..300u32 {
        writer.push((at % 200) as u8, (at * 100) as u16);
    }
    writer.finish_term(7);
    for _ in 0..128 {
        writer.push(9, 900);
    }
    writer.finish_term(9000);
    let wide = writer.wide().clone();
    let bytes = writer.finish();
    assert_eq!(bytes.len(), 16 + 2 * 12 + 4);
    assert_eq!(&bytes[..16], [2, 0, 0, 0, 1, 0, 0, 0, 2, 0, 0, 0, 3, 0, 0, 0]);

    let reader = Reader::new(&bytes).expect("reads").with_wide(&wide);
    assert_eq!(reader.get(7), [127, 199, 99]);
    assert_eq!(reader.get(9000), [9]);
    let ceilings = reader.ceilings(7);
    assert_eq!(ceilings.fraction(0), Some((12_700, 65_535)));
    assert_eq!(ceilings.fraction(1), Some((25_500, 65_535)));
    assert_eq!(ceilings.fraction(2), Some((29_900, 65_535)));
    assert_eq!(ceilings.fraction(3), None);
    assert_eq!(ceilings.order(), [2, 1, 0]);
}

#[test]
fn a_section_cut_in_its_header_or_directory_says_how_much_is_missing() {
    let mut writer = Writer::new(0, 0, 0);
    for _ in 0..128 {
        writer.push(1, 1);
    }
    writer.finish_term(5);
    let bytes = writer.finish();
    assert_eq!(
        Reader::new(&bytes[..14]).err(),
        Some(Error::Truncated {
            needed: 4,
            available: 2
        })
    );
    assert_eq!(
        Reader::new(&bytes[..20]).err(),
        Some(Error::Truncated {
            needed: 12,
            available: 4
        })
    );
}
