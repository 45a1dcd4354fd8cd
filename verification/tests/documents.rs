use docx_rs::{Docx, Paragraph, Run, Table, TableCell, TableRow};
use dyna::docx::{document_text, parse_table, DocxBlock, DocxFile, DocxTable};
use dyna::pdf::{pages_text, PdfFile};
use dyna::server::{find_query, request_action, request_query, RequestAction};
use dyna::text::TextFile;

#[test]
fn document_text_spaces_paragraphs_and_tables() {
    let inner = DocxTable { rows: vec![vec![vec![DocxBlock::Paragraph("deep".to_string())]]] };
    let table = DocxTable {
        rows: vec![
            vec![
                vec![DocxBlock::Paragraph("a".to_string()), DocxBlock::Other],
                vec![DocxBlock::Paragraph("b".to_string())],
            ],
            vec![vec![DocxBlock::Table(inner)]],
        ],
    };
    assert_eq!(parse_table(&table), "a b deep  ");
    let blocks = vec![
        DocxBlock::Paragraph("Title".to_string()),
        DocxBlock::Other,
        DocxBlock::Table(table),
        DocxBlock::Paragraph("end".to_string()),
    ];
    assert_eq!(document_text(&blocks), "Title a b deep   end ");
    assert_eq!(document_text(&Vec::new()), "");
}

fn blocks_of(children: &[docx_rs::DocumentChild]) -> Vec<DocxBlock> {
    children
        .iter()
        .map(|c| match c {
            docx_rs::DocumentChild::Paragraph(p) => DocxBlock::Paragraph(p.raw_text()),
            docx_rs::DocumentChild::Table(t) => DocxBlock::Table(DocxTable {
                rows: t
                    .rows
                    .iter()
                    .map(|docx_rs::TableChild::TableRow(r)| {
                        r.cells
                            .iter()
                            .map(|docx_rs::TableRowChild::TableCell(c)| {
                                c.children
                                    .iter()
                                    .map(|x| match x {
                                        docx_rs::TableCellContent::Paragraph(p) => {
                                            DocxBlock::Paragraph(p.raw_text())
                                        }
                                        _ => DocxBlock::Other,
                                    })
                                    .collect()
                            })
                            .collect()
                    })
                    .collect(),
            }),
            _ => DocxBlock::Other,
        })
        .collect()
}

#[test]
fn document_text_of_a_packed_document() {
    let table = Table::new(vec![TableRow::new(vec![
        TableCell::new().add_paragraph(Paragraph::new().add_run(Run::new().add_text("cell"))),
    ])]);
    let doc = Docx::new()
        .add_paragraph(Paragraph::new().add_run(Run::new().add_text("Hello")))
        .add_table(table);
    let mut buf = std::io::Cursor::new(Vec::new());
    doc.build().pack(&mut buf).unwrap();
    let read = docx_rs::read_docx(buf.get_ref()).unwrap();
    assert_eq!(document_text(&blocks_of(&read.document.children)), "Hello cell  ");
}

#[test]
fn pages_are_joined_and_lowercased() {
    let pages = vec!["Hello ".to_string(), "WORLD".to_string()];
    assert_eq!(pages_text(&pages), "hello world");
    assert_eq!(pages_text(&Vec::new()), "");
}

#[test]
fn file_constructors_keep_their_names() {
    assert_eq!(TextFile::new("a.txt").filename, "a.txt");
    assert_eq!(DocxFile::new("b.docx").filename, "b.docx");
    assert_eq!(PdfFile::new("c.pdf").filename, "c.pdf");
}

#[test]
fn query_parameter_of_a_request() {
    assert_eq!(
        request_query("http://localhost:8000/?x=1&query=hello%20world&query=2").unwrap(),
        Some("hello world".to_string())
    );
    assert_eq!(request_query("http://localhost:8000/search?q=1").unwrap(), None);
    assert!(request_query("not a url").is_err());
}

#[test]
fn find_query_takes_the_first_match() {
    let pairs = vec![
        ("a".to_string(), "1".to_string()),
        ("query".to_string(), "first".to_string()),
        ("query".to_string(), "second".to_string()),
    ];
    assert_eq!(find_query(&pairs), Some("first".to_string()));
    assert_eq!(find_query(&Vec::new()), None);
}

#[test]
fn text_of_joined_blocks_is_joined_text() {
    let a = vec![DocxBlock::Paragraph("one".to_string()), DocxBlock::Other];
    let b = vec![DocxBlock::Paragraph("two".to_string())];
    let joined = vec![
        DocxBlock::Paragraph("one".to_string()),
        DocxBlock::Other,
        DocxBlock::Paragraph("two".to_string()),
    ];
    assert_eq!(document_text(&joined), document_text(&a) + &document_text(&b));
}

#[test]
fn request_action_stops_answers_or_ignores() {
    assert!(matches!(request_action("not a url"), RequestAction::Stop(_)));
    match request_action("http://localhost:8000/?query=big%20cats&query=x") {
        RequestAction::Answer(q) => assert_eq!(q, "big cats"),
        other => panic!("unexpected {other:?}"),
    }
    assert!(matches!(request_action("http://localhost:8000/?q=1"), RequestAction::Ignore));
}
