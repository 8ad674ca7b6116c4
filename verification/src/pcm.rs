//! Samples as bit patterns, as bytes and as text.
//!
//! A sample is held as the 32 bits of its single-precision amplitude: the top bit is the
//! sign, the other 31 are the magnitude. Magnitudes order as the numbers they stand for, up
//! to the one for infinity; the patterns above that one are not numbers.

use vstd::prelude::*;

verus! {

/// The weight of the sign bit.
pub const SIGN: u32 = 0x8000_0000;

/// The magnitude of an infinite amplitude: the largest that is a number.
pub const INFINITE: u32 = 0x7F80_0000;

/// The magnitude of a sample: the sample without its sign.
pub open spec fn magnitude(sample: u32) -> u32 {
    if sample >= SIGN {
        (sample - SIGN) as u32
    } else {
        sample
    }
}

/// The sample is a number.
pub open spec fn is_number(sample: u32) -> bool {
    magnitude(sample) <= INFINITE
}

/// The place of a number in the order of numbers; both zeros have the same.
pub open spec fn rank(number: u32) -> int {
    if number >= SIGN {
        -(magnitude(number) as int)
    } else {
        number as int
    }
}

/// Both are numbers and the first is the greater one.
pub open spec fn is_above(a: u32, b: u32) -> bool {
    is_number(a) && is_number(b) && rank(a) > rank(b)
}

/// The sample is a finite number.
pub open spec fn is_finite(sample: u32) -> bool {
    magnitude(sample) < INFINITE
}

/// The sample with its sign turned.
pub open spec fn negation(sample: u32) -> u32 {
    if sample >= SIGN {
        (sample - SIGN) as u32
    } else {
        (sample + SIGN) as u32
    }
}

/// The magnitudes of samples, in order.
pub open spec fn magnitudes(samples: Seq<u32>) -> Seq<u32> {
    samples.map_values(|sample: u32| magnitude(sample))
}

/// Byte number `at` of a sample, the lowest first.
pub open spec fn sample_byte(sample: u32, at: int) -> u8 {
    if at == 0 {
        (sample % 256) as u8
    } else if at == 1 {
        (sample / 256 % 256) as u8
    } else if at == 2 {
        (sample / 65536 % 256) as u8
    } else {
        (sample / 16777216) as u8
    }
}

/// Samples as bytes: four for each, the lowest first.
pub open spec fn pcm_bytes(samples: Seq<u32>) -> Seq<u8> {
    Seq::new(4 * samples.len(), |i: int| sample_byte(samples[i / 4], i % 4))
}

/// Bytes as samples, four for each, the lowest first; one to three left over are dropped.
pub open spec fn pcm_samples(bytes: Seq<u8>) -> Seq<u32> {
    Seq::new(
        bytes.len() / 4,
        |i: int|
            (bytes[4 * i] + 256 * bytes[4 * i + 1] + 65536 * bytes[4 * i + 2] + 16777216 * bytes[4
                * i + 3]) as u32,
    )
}

/// The character for six bits in the standard base64 alphabet.
pub open spec fn base64_char(value: int) -> char {
    if value < 26 {
        ('A' as int + value) as char
    } else if value < 52 {
        ('a' as int + (value - 26)) as char
    } else if value < 62 {
        ('0' as int + (value - 52)) as char
    } else if value == 62 {
        '+'
    } else {
        '/'
    }
}

/// The byte at position `at`, zero past the end.
pub open spec fn byte_or_zero(bytes: Seq<u8>, at: int) -> int {
    if 0 <= at < bytes.len() {
        bytes[at] as int
    } else {
        0
    }
}

/// The 24 bits of three bytes from position `at` on.
pub open spec fn word_at(bytes: Seq<u8>, at: int) -> int {
    65536 * byte_or_zero(bytes, at) + 256 * byte_or_zero(bytes, at + 1) + byte_or_zero(
        bytes,
        at + 2,
    )
}

/// Six of the 24 bits of a word, the highest first.
pub open spec fn six_bits(word: int, at: int) -> int {
    if at == 0 {
        word / 262144 % 64
    } else if at == 1 {
        word / 4096 % 64
    } else if at == 2 {
        word / 64 % 64
    } else {
        word % 64
    }
}

/// The number of characters of the base64 form of `count` bytes.
pub open spec fn base64_len(count: nat) -> nat {
    4 * ((count + 2) / 3)
}

/// Bytes in base64 with the standard alphabet and padding: four characters for every three
/// bytes, where a last group of one or two bytes is filled up with `=`.
pub open spec fn base64_text(bytes: Seq<u8>) -> Seq<char> {
    Seq::new(
        base64_len(bytes.len()),
        |i: int|
            if 3 * (i / 4) + i % 4 > bytes.len() {
                '='
            } else {
                base64_char(six_bits(word_at(bytes, 3 * (i / 4)), i % 4))
            },
    )
}

/// The six bits of a character of the alphabet.
pub open spec fn base64_value(c: char) -> int {
    if 'A' <= c <= 'Z' {
        c as int - 'A' as int
    } else if 'a' <= c <= 'z' {
        c as int - 'a' as int + 26
    } else if '0' <= c <= '9' {
        c as int - '0' as int + 52
    } else if c == '+' {
        62
    } else if c == '/' {
        63
    } else {
        0
    }
}

/// The 24 bits of the four characters of group `group`.
pub open spec fn decoded_word(text: Seq<char>, group: int) -> int {
    262144 * base64_value(text[4 * group]) + 4096 * base64_value(text[4 * group + 1]) + 64
        * base64_value(text[4 * group + 2]) + base64_value(text[4 * group + 3])
}

/// How many `=` end the text.
pub open spec fn padding(text: Seq<char>) -> int {
    if text.len() < 4 {
        0
    } else if text[text.len() - 2] == '=' {
        2
    } else if text[text.len() - 1] == '=' {
        1
    } else {
        0
    }
}

/// The bytes that a base64 text stands for.
pub open spec fn base64_bytes(text: Seq<char>) -> Seq<u8> {
    Seq::new(
        (text.len() / 4 * 3 - padding(text)) as nat,
        |i: int|
            {
                let word = decoded_word(text, i / 3);
                if i % 3 == 0 {
                    (word / 65536 % 256) as u8
                } else if i % 3 == 1 {
                    (word / 256 % 256) as u8
                } else {
                    (word % 256) as u8
                }
            },
    )
}

/// What a chunk of samples is sent as.
pub open spec fn payload(samples: Seq<u32>) -> Seq<char> {
    base64_text(pcm_bytes(samples))
}

/// The text for so many samples can be allocated.
pub open spec fn payload_fits(count: nat) -> bool {
    base64_len(4 * count) <= isize::MAX
}

/// Calls `Engine::encode` of base64 on its `STANDARD` engine: the standard alphabet, with
/// padding. The call panics on bytes whose text no allocation can hold.
#[verifier::external_body]
fn base64_encode(bytes: &Vec<u8>) -> (text: String)
    requires
        base64_len(bytes@.len()) <= isize::MAX,
    ensures
        text@ == base64_text(bytes@),
{
    base64::Engine::encode(&base64::engine::general_purpose::STANDARD, bytes)
}

/// The sample without its sign.
pub fn magnitude_of(sample: u32) -> (size: u32)
    ensures
        size == magnitude(sample),
{
    if sample >= SIGN {
        sample - SIGN
    } else {
        sample
    }
}

/// Whether the first number is greater than the second.
pub fn above(a: u32, b: u32) -> (greater: bool)
    ensures
        greater == is_above(a, b),
{
    let (size_a, size_b): (u32, u32) = (magnitude_of(a), magnitude_of(b));
    if size_a > INFINITE || size_b > INFINITE {
        return false;
    }
    match (a >= SIGN, b >= SIGN) {
        (false, false) => size_a > size_b,
        (false, true) => size_a > 0 || size_b > 0,
        (true, false) => false,
        (true, true) => size_a < size_b,
    }
}

/// The samples as bytes.
pub fn to_bytes(samples: &[u32]) -> (bytes: Vec<u8>)
    ensures
        bytes@ == pcm_bytes(samples@),
{
    let mut bytes: Vec<u8> = Vec::new();
    let mut i: usize = 0;
    while i < samples.len()
        invariant
            i <= samples@.len(),
            bytes@.len() == 4 * i,
            forall|k: int|
                0 <= k < 4 * i ==> #[trigger] bytes@[k] == sample_byte(samples@[k / 4], k % 4),
        decreases samples@.len() - i,
    {
        let sample: u32 = samples[i];
        bytes.push((sample % 256) as u8);
        bytes.push((sample / 256 % 256) as u8);
        bytes.push((sample / 65536 % 256) as u8);
        bytes.push((sample / 16777216) as u8);
        i += 1;
    }
    assert(bytes@ =~= pcm_bytes(samples@));
    bytes
}

/// The bytes as samples.
pub fn from_bytes(bytes: &[u8]) -> (samples: Vec<u32>)
    ensures
        samples@ == pcm_samples(bytes@),
{
    let mut samples: Vec<u32> = Vec::new();
    let count: usize = bytes.len() / 4;
    let mut i: usize = 0;
    while i < count
        invariant
            i <= count,
            count == bytes.len() / 4,
            samples@.len() == i,
            forall|k: int| 0 <= k < i ==> #[trigger] samples@[k] == pcm_samples(bytes@)[k],
        decreases count - i,
    {
        let at: usize = 4 * i;
        let sample: u32 = bytes[at] as u32 + 256 * bytes[at + 1] as u32 + 65536 * bytes[at
            + 2] as u32 + 16777216 * bytes[at + 3] as u32;
        samples.push(sample);
        i += 1;
    }
    assert(samples@ =~= pcm_samples(bytes@));
    samples
}

/// The text that a chunk of samples is sent as.
pub fn encode_samples(samples: &[u32]) -> (text: String)
    requires
        payload_fits(samples@.len()),
    ensures
        text@ == payload(samples@),
{
    let bytes = to_bytes(samples);
    base64_encode(&bytes)
}

/// Of two different numbers one is above the other, unless both are zero; being above carries
/// over, and what is no number is above nothing and below nothing.
pub proof fn law_numbers_are_ordered(a: u32, b: u32, c: u32)
    ensures
        !(is_above(a, b) && is_above(b, a)),
        is_above(a, b) && is_above(b, c) ==> is_above(a, c),
        is_number(a) && is_number(b) && a != b && !is_above(a, b) && !is_above(b, a) ==> magnitude(
            a,
        ) == 0 && magnitude(b) == 0,
        !is_number(a) ==> !is_above(a, b) && !is_above(b, a),
{
}

/// The four bytes of a sample make up the sample.
proof fn lemma_sample_of_bytes(sample: u32)
    ensures
        sample == sample_byte(sample, 0) + 256 * sample_byte(sample, 1) + 65536 * sample_byte(
            sample,
            2,
        ) + 16777216 * sample_byte(sample, 3),
{
    let x = sample as int;
    let y = x / 256;
    let z = y / 256;
    let w = z / 256;
    vstd::arithmetic::div_mod::lemma_div_denominator(x, 256, 256);
    vstd::arithmetic::div_mod::lemma_div_denominator(x, 65536, 256);
    assert(x == 256 * y + x % 256);
    assert(y == 256 * z + y % 256);
    assert(z == 256 * w + z % 256);
    assert(0 <= w < 256);
    assert(sample_byte(sample, 0) == x % 256);
    assert(sample_byte(sample, 1) == y % 256);
    assert(sample_byte(sample, 2) == z % 256);
    assert(sample_byte(sample, 3) == w);
}

/// Bytes back to samples undoes samples to bytes.
pub proof fn law_bytes_read_back(samples: Seq<u32>)
    ensures
        pcm_samples(pcm_bytes(samples)) == samples,
{
    let bytes = pcm_bytes(samples);
    assert forall|i: int| 0 <= i < samples.len() implies pcm_samples(bytes)[i] == samples[i] by {
        assert(bytes[4 * i] == sample_byte(samples[i], 0));
        assert(bytes[4 * i + 1] == sample_byte(samples[i], 1));
        assert(bytes[4 * i + 2] == sample_byte(samples[i], 2));
        assert(bytes[4 * i + 3] == sample_byte(samples[i], 3));
        lemma_sample_of_bytes(samples[i]);
    }
    assert(pcm_samples(bytes) =~= samples);
}

proof fn lemma_base64_value(value: int)
    requires
        0 <= value < 64,
    ensures
        base64_value(base64_char(value)) == value,
        base64_char(value) != '=',
{
}

proof fn lemma_padding(bytes: Seq<u8>)
    ensures
        padding(base64_text(bytes)) == base64_len(bytes.len()) / 4 * 3 - bytes.len(),
{
    let text = base64_text(bytes);
    if bytes.len() > 0 {
        let last = text.len() - 1;
        let word = word_at(bytes, 3 * (last / 4));
        lemma_base64_value(six_bits(word, 3));
        lemma_base64_value(six_bits(word, 2));
        assert((last - 1) / 4 == last / 4);
    }
}

/// Six bits four times make up the word again.
proof fn lemma_word_of_sixes(word: int)
    requires
        0 <= word < 16777216,
    ensures
        262144 * six_bits(word, 0) + 4096 * six_bits(word, 1) + 64 * six_bits(word, 2) + six_bits(
            word,
            3,
        ) == word,
        forall|at: int| 0 <= #[trigger] six_bits(word, at) < 64,
{
}

/// The bytes of a word are the ones it was made from.
proof fn lemma_word_bytes(a: int, b: int, c: int)
    requires
        0 <= a < 256,
        0 <= b < 256,
        0 <= c < 256,
    ensures
        0 <= 65536 * a + 256 * b + c < 16777216,
        (65536 * a + 256 * b + c) / 65536 % 256 == a,
        (65536 * a + 256 * b + c) / 256 % 256 == b,
        (65536 * a + 256 * b + c) % 256 == c,
        b == 0 && c == 0 ==> six_bits(65536 * a + 256 * b + c, 2) == 0,
        c == 0 ==> six_bits(65536 * a + 256 * b + c, 3) == 0,
{
}

/// A character of the text gives back its six bits; padding stands where they are zero.
proof fn lemma_decoded_char(bytes: Seq<u8>, group: int, at: int)
    requires
        0 <= group,
        3 * group < bytes.len(),
        0 <= at < 4,
    ensures
        base64_value(base64_text(bytes)[4 * group + at]) == six_bits(
            word_at(bytes, 3 * group),
            at,
        ),
{
    let word = word_at(bytes, 3 * group);
    let a = byte_or_zero(bytes, 3 * group);
    let b = byte_or_zero(bytes, 3 * group + 1);
    let c = byte_or_zero(bytes, 3 * group + 2);
    let i = 4 * group + at;
    assert(i / 4 == group && i % 4 == at);
    assert(0 <= i < base64_len(bytes.len()));
    lemma_word_bytes(a, b, c);
    lemma_word_of_sixes(word);
    if 3 * group + at > bytes.len() {
        assert(base64_text(bytes)[i] == '=');
    } else {
        assert(base64_text(bytes)[i] == base64_char(six_bits(word, at)));
        lemma_base64_value(six_bits(word, at));
    }
}

proof fn lemma_decoded_word(bytes: Seq<u8>, group: int)
    requires
        0 <= group,
        3 * group < bytes.len(),
    ensures
        decoded_word(base64_text(bytes), group) == word_at(bytes, 3 * group),
{
    lemma_word_bytes(
        byte_or_zero(bytes, 3 * group),
        byte_or_zero(bytes, 3 * group + 1),
        byte_or_zero(bytes, 3 * group + 2),
    );
    lemma_decoded_char(bytes, group, 0);
    lemma_decoded_char(bytes, group, 1);
    lemma_decoded_char(bytes, group, 2);
    lemma_decoded_char(bytes, group, 3);
    lemma_word_of_sixes(word_at(bytes, 3 * group));
}

proof fn lemma_decoded_byte(bytes: Seq<u8>, i: int)
    requires
        0 <= i < bytes.len(),
        base64_bytes(base64_text(bytes)).len() == bytes.len(),
    ensures
        base64_bytes(base64_text(bytes))[i] == bytes[i],
{
    let group = i / 3;
    lemma_decoded_word(bytes, group);
    lemma_word_bytes(
        byte_or_zero(bytes, 3 * group),
        byte_or_zero(bytes, 3 * group + 1),
        byte_or_zero(bytes, 3 * group + 2),
    );
    if i % 3 == 0 {
        assert(i == 3 * group);
    } else if i % 3 == 1 {
        assert(i == 3 * group + 1);
    } else {
        assert(i == 3 * group + 2);
    }
}

/// The text of a chunk stands for exactly the bytes it was made from.
pub proof fn law_base64_reads_back(bytes: Seq<u8>)
    ensures
        base64_bytes(base64_text(bytes)) == bytes,
{
    let text = base64_text(bytes);
    lemma_padding(bytes);
    assert(base64_bytes(text).len() == bytes.len());
    assert forall|i: int| 0 <= i < bytes.len() implies base64_bytes(text)[i] == bytes[i] by {
        lemma_decoded_byte(bytes, i);
    }
    assert(base64_bytes(text) =~= bytes);
}

/// A listener that decodes a chunk has the samples that were captured, bit for bit.
pub proof fn law_payload_reads_back(samples: Seq<u32>)
    ensures
        pcm_samples(base64_bytes(payload(samples))) == samples,
{
    law_base64_reads_back(pcm_bytes(samples));
    law_bytes_read_back(samples);
}

/// The magnitude of a sample is the sample without its top bit, and a sample is a number up to
/// the pattern of infinity.
pub proof fn law_magnitude_drops_the_sign(sample: u32)
    ensures
        magnitude(sample) < 0x8000_0000,
        sample == magnitude(sample) || sample == magnitude(sample) + 0x8000_0000,
        is_number(sample) <==> magnitude(sample) <= 0x7F80_0000,
        is_finite(sample) <==> magnitude(sample) < 0x7F80_0000,
        negation(sample) != sample && magnitude(negation(sample)) == magnitude(sample),
{
}

/// The magnitudes stand in the order of the samples.
pub proof fn law_magnitudes_keep_places(samples: Seq<u32>)
    ensures
        magnitudes(samples).len() == samples.len(),
        forall|i: int|
            0 <= i < samples.len() ==> magnitudes(samples)[i] == magnitude(#[trigger] samples[i]),
{
}

/// Numbers without a sign compare as their patterns do and numbers with a sign the other way
/// round; a number without a sign is above one with a sign unless both are zero.
pub proof fn law_numbers_compare(a: u32, b: u32)
    requires
        a <= 0x7F80_0000,
        b <= 0x7F80_0000,
    ensures
        is_above(a, b) == (a > b),
        is_above((a + 0x8000_0000) as u32, (b + 0x8000_0000) as u32) == (a < b),
        is_above(a, (b + 0x8000_0000) as u32) == (a > 0 || b > 0),
        !is_above((a + 0x8000_0000) as u32, b),
        rank(a) == a,
        rank((a + 0x8000_0000) as u32) == -(a as int),
{
}

/// Each sample stands in four bytes, the lowest first.
pub proof fn law_bytes_are_little_endian(samples: Seq<u32>, i: int)
    requires
        0 <= i < samples.len(),
    ensures
        pcm_bytes(samples).len() == 4 * samples.len(),
        samples[i] == pcm_bytes(samples)[4 * i] + 256 * pcm_bytes(samples)[4 * i + 1] + 65536
            * pcm_bytes(samples)[4 * i + 2] + 16777216 * pcm_bytes(samples)[4 * i + 3],
{
    let bytes = pcm_bytes(samples);
    assert(bytes[4 * i] == sample_byte(samples[i], 0));
    assert(bytes[4 * i + 1] == sample_byte(samples[i], 1));
    assert(bytes[4 * i + 2] == sample_byte(samples[i], 2));
    assert(bytes[4 * i + 3] == sample_byte(samples[i], 3));
    lemma_sample_of_bytes(samples[i]);
}

/// Bytes read as samples are those bytes again, but for one to three at the end.
pub proof fn law_samples_keep_bytes(bytes: Seq<u8>)
    ensures
        4 * pcm_samples(bytes).len() <= bytes.len() < 4 * pcm_samples(bytes).len() + 4,
        pcm_bytes(pcm_samples(bytes)) == bytes.take(4 * pcm_samples(bytes).len() as int),
{
    let samples = pcm_samples(bytes);
    let back = pcm_bytes(samples);
    assert forall|k: int| 0 <= k < back.len() implies back[k] == bytes[k] by {
        let i = k / 4;
        lemma_four_bytes(bytes[4 * i], bytes[4 * i + 1], bytes[4 * i + 2], bytes[4 * i + 3]);
        assert(back[k] == sample_byte(samples[i], k % 4));
        assert(k == 4 * i + k % 4);
    }
    assert(back =~= bytes.take(4 * samples.len() as int));
}

proof fn lemma_low_byte(low: int, high: int)
    requires
        0 <= low < 256,
    ensures
        (low + 256 * high) % 256 == low,
        (low + 256 * high) / 256 == high,
{
}

proof fn lemma_four_bytes(a: u8, b: u8, c: u8, d: u8)
    ensures
        ({
            let sample = (a + 256 * b + 65536 * c + 16777216 * d) as u32;
            &&& sample_byte(sample, 0) == a
            &&& sample_byte(sample, 1) == b
            &&& sample_byte(sample, 2) == c
            &&& sample_byte(sample, 3) == d
        }),
{
    let z = c + 256 * d;
    let y = b + 256 * z;
    let x = a + 256 * y;
    assert(x == a + 256 * b + 65536 * c + 16777216 * d);
    assert(0 <= x <= u32::MAX);
    lemma_low_byte(a as int, y);
    lemma_low_byte(b as int, z);
    lemma_low_byte(c as int, d as int);
    vstd::arithmetic::div_mod::lemma_div_denominator(x, 256, 256);
    vstd::arithmetic::div_mod::lemma_div_denominator(x, 65536, 256);
    let sample = x as u32;
    assert(sample == x);
    assert(sample / 65536 == z);
    assert(sample / 16777216 == d);
}

/// A chunk is sent as the base64 text of its bytes, four characters for every three bytes
/// begun.
pub proof fn law_payload_is_base64(samples: Seq<u32>)
    ensures
        payload(samples) == base64_text(pcm_bytes(samples)),
        payload(samples).len() % 4 == 0,
        3 * payload(samples).len() >= 16 * samples.len(),
        3 * payload(samples).len() < 16 * samples.len() + 12,
{
}

} // verus!
