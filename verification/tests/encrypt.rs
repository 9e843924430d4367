use turbo_html2pdf_core::encrypt::parse::{is_parsable, Document, Object, Trailer};
use turbo_html2pdf_core::encrypt::{encrypt_pdf, is_encryptable_input, Encryption, Keys, Permissions};

fn encryption() -> Encryption {
    Encryption { user_password: "user".to_string(), owner_password: Some("owner".to_string()), permissions: Permissions::all() }
}

fn object(number: i32, body: &[u8]) -> Object {
    Object { number, body: body.to_vec(), stream: None, encrypted_stream: None, strings: Vec::new() }
}

/// A small classic-xref PDF with a catalog, a page tree and an info string.
fn small_pdf() -> Vec<u8> {
    let bodies: [&[u8]; 3] = [
        b"<< /Type /Catalog /Pages 2 0 R >>",
        b"<< /Type /Pages /Kids [] /Count 0 >>",
        b"<< /Title (Hello) >>",
    ];
    let mut out: Vec<u8> = b"%PDF-1.7\n".to_vec();
    let mut offsets = Vec::new();
    for (i, body) in bodies.iter().enumerate() {
        offsets.push(out.len());
        out.extend_from_slice(format!("{} 0 obj\n", i + 1).as_bytes());
        out.extend_from_slice(body);
        out.extend_from_slice(b"\nendobj\n");
    }
    let xref_at = out.len();
    out.extend_from_slice(b"xref\n0 4\n0000000000 65535 f \n");
    for off in &offsets {
        out.extend_from_slice(format!("{:010} 00000 n \n", off).as_bytes());
    }
    out.extend_from_slice(format!("trailer\n<< /Size 4 /Root 1 0 R /Info 3 0 R >>\nstartxref\n{}\n%%EOF\n", xref_at).as_bytes());
    out
}

fn find(hay: &[u8], needle: &[u8]) -> Option<usize> {
    hay.windows(needle.len()).position(|w| w == needle)
}

fn rfind(hay: &[u8], needle: &[u8]) -> Option<usize> {
    hay.windows(needle.len()).rposition(|w| w == needle)
}

#[test]
fn written_trailer_reads_back_as_written() {
    let enc = encryption();
    let keys = Keys::derive(&enc).expect("random source");
    let objects = vec![object(1, b"\n<< /Type /Catalog /Pages 2 0 R >>\n"), object(2, b"\n<< /Type /Pages /Kids [] /Count 0 >>\n")];
    let trailer = Trailer { size: 3, root: 1, info: Some(2) };
    let bytes = turbo_html2pdf_core::encrypt::serialize::write(&objects, trailer, &keys, &enc, &[7u8; 16]);
    let doc = Document::parse(&bytes);
    assert_eq!(doc.trailer.size, 4);
    assert_eq!(doc.trailer.root, 1);
    assert_eq!(doc.trailer.info, Some(2));
}

#[test]
fn written_trailer_without_info_reads_back_without_info() {
    let enc = encryption();
    let keys = Keys::derive(&enc).expect("random source");
    let objects = vec![object(1, b"\n<< /Type /Catalog >>\n")];
    let trailer = Trailer { size: 2, root: 1, info: None };
    let bytes = turbo_html2pdf_core::encrypt::serialize::write(&objects, trailer, &keys, &enc, &[0xABu8; 16]);
    let doc = Document::parse(&bytes);
    assert_eq!(doc.trailer.size, 3);
    assert_eq!(doc.trailer.root, 1);
    assert_eq!(doc.trailer.info, None);
}

#[test]
fn written_xref_pointer_lands_on_the_table() {
    let enc = encryption();
    let keys = Keys::derive(&enc).expect("random source");
    let objects = vec![object(1, b"\n<< /Type /Catalog >>\n")];
    let bytes = turbo_html2pdf_core::encrypt::serialize::write(&objects, Trailer { size: 2, root: 1, info: None }, &keys, &enc, &[1u8; 16]);
    let kw = rfind(&bytes, b"startxref").expect("startxref");
    let digits: String = bytes[kw + 10..].iter().take_while(|b| b.is_ascii_digit()).map(|b| *b as char).collect();
    let at: usize = digits.parse().unwrap();
    assert_eq!(&bytes[at..at + 5], b"xref\n");
}

#[test]
fn encrypted_pdf_keeps_numbering_and_hides_strings() {
    let input = small_pdf();
    let out = encrypt_pdf(&input, &encryption()).expect("random source");
    assert!(find(&out, b"(Hello)").is_none());
    assert!(find(&out, b"/Filter /Standard").is_some());
    let doc = Document::parse(&out);
    assert_eq!(doc.trailer.size, 5);
    assert_eq!(doc.trailer.root, 1);
    assert_eq!(doc.trailer.info, Some(3));
    let numbers: Vec<i32> = doc.objects.iter().map(|o| o.number).collect();
    assert_eq!(numbers, vec![1, 2, 3, 4]);
}

#[test]
fn the_reader_tells_which_files_it_accepts() {
    let input = small_pdf();
    assert!(is_parsable(&input));
    assert!(is_encryptable_input(&input));
    assert!(!is_parsable(b"not a pdf"));
    assert!(!is_encryptable_input(b"not a pdf"));
    // A startxref that points past the end of the file.
    let mut broken = input.clone();
    let at = rfind(&broken, b"startxref").unwrap();
    broken.truncate(at);
    broken.extend_from_slice(b"startxref\n999999\n%%EOF\n");
    assert!(!is_parsable(&broken));
    // A trailer whose /Size does not fit the reader.
    let huge = String::from_utf8(input.clone()).unwrap().replace("/Size 4", "/Size 99999999999");
    assert!(!is_parsable(huge.as_bytes()));
    // What the encryptor writes, the reader accepts.
    let out = encrypt_pdf(&input, &encryption()).expect("random source");
    assert!(is_parsable(&out));
}

#[test]
fn written_objects_read_back_in_order() {
    let enc = encryption();
    let keys = Keys::derive(&enc).expect("random source");
    let objects = vec![object(1, b"<< /Type /Catalog /Pages 2 0 R >>"), object(2, b"<< /Title (Hi) /N 3 >>")];
    let bytes = turbo_html2pdf_core::encrypt::serialize::write(&objects, Trailer { size: 3, root: 1, info: None }, &keys, &enc, &[9u8; 16]);
    assert!(is_parsable(&bytes));
    let doc = Document::parse(&bytes);
    let numbers: Vec<i32> = doc.objects.iter().map(|o| o.number).collect();
    assert_eq!(numbers, vec![1, 2, 3]);
    assert_eq!(doc.objects[0].body, b"\n<< /Type /Catalog /Pages 2 0 R >>\n".to_vec());
    assert_eq!(doc.objects[1].body, b"\n<< /Title (Hi) /N 3 >>\n".to_vec());
    assert!(doc.objects.iter().all(|o| o.stream.is_none()));
    assert_eq!(doc.objects[1].strings.len(), 1);
    assert_eq!(doc.objects[1].strings[0].bytes, b"Hi".to_vec());
}
