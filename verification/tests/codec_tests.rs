use rand::Rng;
use berlewelch::decode;
use berlewelch::encode;
use berlewelch::Gfe;

#[test]
fn random_trials() {
    const M: u32 = 0x7fffffff; // 2^31-1
    const TRIALS: usize = 20;
    const N_MIN: usize = 10;
    const N_MAX: usize = 50;
    const K_MIN: usize = 10;
    const K_MAX: usize = 20;

    for _ in 0..TRIALS {
        // Length of message
        let n: usize = rand::thread_rng().gen_range(N_MIN..=N_MAX);
        // Number of errors to tolerate
        let k: usize = rand::thread_rng().gen_range(K_MIN..=K_MAX);

        // Randomly generated message
        let message = rand::thread_rng()
            .sample_iter(rand::distributions::Uniform::new(0, M))
            .take(n)
            .map(|x| Gfe::<M>::new(x))
            .collect::<Vec<_>>();
        // Encoded error resistant message
        let encoded = encode(k, &message);

        // Corrupt the message with e general errors
        let e = k;
        let mut corrupted = encoded.clone();
        corrupt(&mut corrupted, e);

        decode(k, &mut corrupted).unwrap();
        assert_eq!(corrupted, encoded);
    }
}

fn corrupt<const M: u32>(message: &mut [Gfe<M>], e: usize) {
    for i in rand::seq::index::sample(&mut rand::thread_rng(), message.len(), e) {
        message[i] = rand_gfe_except(message[i]);
    }
}

fn rand_gfe_except<const M: u32>(x: Gfe<M>) -> Gfe<M> {
    let y = rand::thread_rng().sample(rand::distributions::Uniform::new(0, M - 1));
    if y < *x {
        Gfe::new(y)
    } else {
        Gfe::new(y + 1)
    }
}

fn gfe_msg<const M: u32>(ints: &[i64]) -> Vec<Gfe<M>> {
    ints.iter().map(|&x| Gfe::from(x)).collect()
}

#[test]
fn specific_trials() {
    let message = gfe_msg(&[1, 5, 3, 4]);
    let k = 2;
    let encoded = encode(k, &message);
    let mut corrupted = encoded.clone();
    corrupted[1] = Gfe::<19>::new(6);
    let mut decoded = corrupted.clone();
    decode(k, &mut decoded).unwrap();
    println!("Message: {message:?}\nEncoded: {encoded:?}\nCorrupted: {corrupted:?}\nDecoded: {decoded:?}");
    assert_eq!(&message, &decoded[..message.len()]);
}

#[test]
fn encode_appends_further_samples() {
    let message = gfe_msg::<19>(&[1, 5, 3, 4]);
    let encoded = encode(2, &message);
    assert_eq!(encoded, gfe_msg(&[1, 5, 3, 4, 17, 13, 1, 9]));
}

#[test]
fn encode_without_redundancy_is_the_message() {
    let message = gfe_msg::<19>(&[7, 3]);
    assert_eq!(encode(0, &message), message);
}

#[test]
fn encode_a_single_symbol_repeats_it() {
    assert_eq!(encode(1, &gfe_msg::<19>(&[4])), gfe_msg(&[4, 4, 4]));
}

#[test]
fn decode_restores_the_whole_codeword() {
    let encoded = encode(2, &gfe_msg::<19>(&[1, 5, 3, 4]));
    let mut word = encoded.clone();
    word[1] = Gfe::new(6);
    assert_eq!(decode(2, &mut word), Ok(()));
    assert_eq!(word, encoded);
    assert_eq!(word[1], Gfe::new(5));
}

#[test]
fn decode_corrects_errors_in_the_redundant_part() {
    let encoded = encode(2, &gfe_msg::<19>(&[1, 5, 3, 4]));
    let mut word = encoded.clone();
    word[1] = Gfe::new(6);
    word[6] = Gfe::new(0);
    assert_eq!(decode(2, &mut word), Ok(()));
    assert_eq!(word, encoded);
}

#[test]
fn decode_an_uncorrupted_codeword() {
    for k in 0..4 {
        let message = gfe_msg::<19>(&[1, 5, 3, 4]);
        let encoded = encode(k, &message);
        let mut word = encoded.clone();
        assert_eq!(decode(k, &mut word), Ok(()));
        assert_eq!(word, encoded);
        assert_eq!(&word[..4], &message[..]);
    }
}

#[test]
fn decode_without_redundancy() {
    let mut word = gfe_msg::<19>(&[7, 3]);
    assert_eq!(decode(0, &mut word), Ok(()));
    assert_eq!(word, gfe_msg(&[7, 3]));
}

#[test]
fn decode_corrects_every_single_error() {
    let encoded = encode(1, &gfe_msg::<19>(&[2, 0, 18]));
    for position in 0..encoded.len() {
        for value in 0..19 {
            let mut word = encoded.clone();
            word[position] = Gfe::new(value);
            assert_eq!(decode(1, &mut word), Ok(()));
            assert_eq!(word, encoded);
        }
    }
}

#[test]
fn decode_fails_beyond_capacity() {
    // three errors against a capacity of two
    let mut word = gfe_msg::<19>(&[1, 6, 3, 9, 17, 13, 0, 9]);
    let before = word.clone();
    assert_eq!(decode(2, &mut word), Err(()));
    assert_eq!(word, before);
}

#[test]
fn decode_fails_with_an_undetermined_coefficient() {
    let mut word = gfe_msg::<19>(&[1, 2]);
    assert_eq!(decode(1, &mut word), Err(()));
    assert_eq!(word, gfe_msg(&[1, 2]));
}

#[test]
fn decode_beyond_capacity_mostly_fails() {
    let encoded = encode(2, &gfe_msg::<19>(&[1, 5, 3, 4]));
    let mut failures = 0;
    let mut trials = 0;
    for a in 1..19 {
        for b in 1..19 {
            let mut word = encoded.clone();
            word[0] = word[0] + Gfe::new(a);
            word[3] = word[3] + Gfe::new(b);
            word[5] = word[5] + Gfe::new(a);
            trials += 1;
            match decode(2, &mut word) {
                Err(()) => failures += 1,
                Ok(()) => {
                    // what comes out is a codeword, though another one
                    assert_ne!(word, encoded);
                    assert_eq!(word, encode(2, &word[..4]));
                }
            }
        }
    }
    assert!(2 * failures > trials);
}

#[test]
fn decode_of_an_inconsistent_word_yields_a_codeword_or_fails() {
    for a in 0..19 {
        for b in 0..19 {
            let mut word = gfe_msg::<19>(&[a, b, 7, 1, 0]);
            if decode(1, &mut word) == Ok(()) {
                assert_eq!(word, encode(1, &word[..3]));
            } else {
                assert_eq!(word, gfe_msg(&[a, b, 7, 1, 0]));
            }
        }
    }
}

#[test]
fn decode_corrects_three_errors_with_capacity_three() {
    let message = gfe_msg::<29>(&[14, 16, 27, 18]);
    let encoded = encode(3, &message);
    assert_eq!(encoded, gfe_msg(&[14, 16, 27, 18, 18, 27, 16, 14, 21, 8]));
    let mut word = gfe_msg::<29>(&[14, 16, 18, 10, 18, 27, 16, 11, 21, 8]);
    assert_eq!(decode(3, &mut word), Ok(()));
    assert_eq!(word, encoded);
}

#[test]
fn decode_a_repeated_symbol() {
    let mut word = gfe_msg::<29>(&[14, 14, 14, 14, 5, 6, 20]);
    assert_eq!(decode(3, &mut word), Ok(()));
    assert_eq!(word, gfe_msg(&[14; 7]));
}
