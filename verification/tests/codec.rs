use erasure_code::{erasure_coding, eval, lagrange_interpolation, poly_eval, CodingError};

#[test]
fn it_works() {
    let result = erasure_coding("Hello");

    println!("{:?}", result);
    assert!(result.is_ok());
}

#[test]
fn erasure_coding_works_1() {
    let result = erasure_coding("Hello").unwrap();
    println!("Original evaluations : {:?}", result);
    let malformed_message: Vec<(u64, u128)> = vec![
        (1, 500),
        (3, 13254),
        (5, 86152),
        (6, 171750),
        (7, 309626),
        (8, 517744),
    ];
    // Six points cannot determine the seven coefficients of a whole codeword.
    assert_eq!(
        lagrange_interpolation(malformed_message.clone(), result.len()),
        Err(CodingError::InsufficientPoints)
    );
    let recovered_polynomial =
        lagrange_interpolation(malformed_message, eval("Hello").len()).unwrap();

    println!("Recovered:{:?}", recovered_polynomial);
    assert_eq!(Some(result[1].1), poly_eval(&recovered_polynomial, 2));
}

#[test]
fn erasure_coding_works_2() {
    let message = "Rust";
    let result = erasure_coding(message).unwrap();
    println!("Original evaluations : {:?}", result);
    let malformed_message: Vec<(u64, u128)> = vec![(2, 1704), (3, 4600), (4, 9814), (6, 29980)];
    // Four points cannot determine the six coefficients of a whole codeword.
    assert_eq!(
        lagrange_interpolation(malformed_message.clone(), result.len()),
        Err(CodingError::InsufficientPoints)
    );
    let recovered_polynomial =
        lagrange_interpolation(malformed_message, eval(message).len()).unwrap();

    println!("Recovered coeffs: {:?}", recovered_polynomial);
    assert_eq!(Some(result[1].1), poly_eval(&recovered_polynomial, 2));
}

#[test]
fn erasure_coding_works_3() {
    let message = "Propagated";
    let result = erasure_coding(message).unwrap();
    println!("Original coeffs : {:?}", eval(message));
    println!("Original evaluations : {:?}", result);
    let malformed_message: Vec<(u64, u128)> = vec![
        (1, 1031),
        (2, 104608),
        (3, 2992697),
        (5, 245743675),
        (6, 1215364616),
        (7, 4726557293),
        (8, 15388807072),
        (10, 111368394320),
        (11, 259895541601),
        (13, 1150627048547),
    ];
    // Ten points cannot determine the thirteen coefficients of a whole codeword.
    assert_eq!(
        lagrange_interpolation(malformed_message.clone(), result.len()),
        Err(CodingError::InsufficientPoints)
    );
    let recovered_polynomial =
        lagrange_interpolation(malformed_message, eval(message).len()).unwrap();

    println!("Recovered coeffs: {:?}", recovered_polynomial);
    assert_eq!(Some(result[1].1), poly_eval(&recovered_polynomial, 2));
}

#[test]
fn erasure_coding_works_4() {
    let message = "vitaliketh";
    let result = erasure_coding(message).unwrap();

    println!("Original evaluations : {:?}", result);
    let malformed_message: Vec<(u64, u128)> = vec![
        (1, 1077),
        (2, 109376),
        (3, 3145357),
        (4, 37101978),
        (5, 258411293),
        (6, 1277163892),
        (7, 4963322181),
        (8, 16148603582),
        (9, 45832084453),
        (10, 116728689768),
        (11, 272268587357),
        (12, 590462098786),
        (13, 1204389071757),
    ];
    let recovered_polynomial = lagrange_interpolation(malformed_message, result.len()).unwrap();

    println!("Recovered coeffs: {:?}", recovered_polynomial);
    assert_eq!(Some(result[1].1), poly_eval(&recovered_polynomial, 2));
}

#[test]
fn erasure_coding_works_5() {
    let message = "abcdefghi";
    let result = erasure_coding(message).unwrap();

    let malformed_message: Vec<(u64, u128)> = vec![
        (1, 909),
        (2, 53153),
        (3, 1028389),
        (4, 9145881),
        (5, 51147437),
        (6, 211228489),
        (7, 705067173),
        (8, 2010526769),
        (9, 5078840461),
        (10, 11654320977),
        (11, 24734871269),
        (12, 49209805993),
    ];
    let recovered_polynomial = lagrange_interpolation(malformed_message, result.len()).unwrap();

    println!("Recovered coeffs: {:?}", recovered_polynomial);
    assert_eq!(Some(result[1].1), poly_eval(&recovered_polynomial, 2));
}
