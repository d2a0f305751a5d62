use std::path::PathBuf;

use autoorganize::ingestion::{
    create_chunks, extension_of_path, mime_type_for_extension, validate_file, DocxProcessor, FileTypeDetector,
    HtmlProcessor, IngestionConfig, IngestionError, PdfProcessor, TextProcessor,
};

#[test]
fn test_file_type_detection() {
    assert_eq!(FileTypeDetector::detect_mime_type(&PathBuf::from("test.txt").to_string_lossy()), "text/plain");
    assert_eq!(FileTypeDetector::detect_mime_type(&PathBuf::from("test.pdf").to_string_lossy()), "application/pdf");
    assert!(FileTypeDetector::is_text_file(&PathBuf::from("test.txt").to_string_lossy()));
    assert!(!FileTypeDetector::is_text_file(&PathBuf::from("test.pdf").to_string_lossy()));
}

#[test]
fn mime_types_by_extension() {
    assert_eq!(mime_type_for_extension(Some("htm")), "text/html");
    assert_eq!(mime_type_for_extension(Some("exe")), "application/octet-stream");
    assert_eq!(mime_type_for_extension(None), "application/octet-stream");
    assert!(FileTypeDetector::is_binary_file(&PathBuf::from("a.docx").to_string_lossy()));
    assert!(!FileTypeDetector::is_binary_file(&PathBuf::from("a.json").to_string_lossy()));
}

#[test]
fn test_chunk_creation() {
    let content = "This is a test document with multiple sentences. It should be split into chunks properly.";
    let config = IngestionConfig { chunk_size: 5, chunk_overlap: 2, ..Default::default() };
    let chunks = create_chunks(content, &config);
    assert!(!chunks.is_empty());
    assert!(chunks.len() > 1);
}

#[test]
fn chunks_overlap_and_carry_spans() {
    let content = "w1 w2 w3 w4 w5 w6 w7";
    let config = IngestionConfig { chunk_size: 3, chunk_overlap: 1, ..Default::default() };
    let chunks = create_chunks(content, &config);
    let texts: Vec<&str> = chunks.iter().map(|c| c.content.as_str()).collect();
    assert_eq!(texts, vec!["w1 w2 w3", "w3 w4 w5", "w5 w6 w7"]);
    for (i, c) in chunks.iter().enumerate() {
        assert_eq!(c.chunk_index as usize, i);
        assert_eq!(&content[c.start_position as usize..c.end_position as usize], c.content);
    }
    assert_eq!(chunks[0].start_position, 0);
    assert_eq!(chunks[2].end_position as usize, content.len());
    assert!(create_chunks("   ", &config).is_empty());
}

#[test]
fn file_size_limit_is_inclusive() {
    let config = IngestionConfig { max_file_size: 100, ..Default::default() };
    assert_eq!(validate_file(&config, true, true, 100, Some("txt")), Ok(()));
    assert_eq!(validate_file(&config, true, true, 101, Some("txt")), Err(IngestionError::TooLarge));
    assert_eq!(validate_file(&config, false, true, 1, Some("txt")), Err(IngestionError::NotFound));
    assert_eq!(validate_file(&config, true, false, 1, Some("txt")), Err(IngestionError::NotAFile));
    assert_eq!(validate_file(&config, true, true, 1, Some("exe")), Err(IngestionError::UnsupportedType));
    assert_eq!(validate_file(&config, true, true, 1, Some("TXT")), Ok(()));
    assert_eq!(validate_file(&config, true, true, 1, None), Err(IngestionError::UnsupportedType));
}

#[test]
fn default_config_values() {
    let config = IngestionConfig::default();
    assert_eq!(config.max_file_size, 100 * 1024 * 1024);
    assert_eq!(config.chunk_size, 1000);
    assert_eq!(config.chunk_overlap, 200);
    assert!(config.supported_extensions.contains(&"md".to_string()));
}

#[test]
fn decoders_claim_their_extensions() {
    assert!(TextProcessor::new().can_process(&PathBuf::from("notes.md").to_string_lossy()));
    assert!(!TextProcessor::new().can_process(&PathBuf::from("notes.pdf").to_string_lossy()));
    assert!(HtmlProcessor::handles_extension(Some("htm")));
    assert!(PdfProcessor::new().can_process(&PathBuf::from("a.pdf").to_string_lossy()));
    assert_eq!(PdfProcessor::estimate_page_count("one two three"), 1);
    let long = "word ".repeat(1200);
    assert_eq!(DocxProcessor::estimate_page_count(&long), 2);
}

#[test]
fn extension_rule() {
    assert_eq!(extension_of_path("/a/b/report.tar.gz"), Some("gz".to_string()));
    assert_eq!(extension_of_path("/a/b.d/README"), None);
    assert_eq!(extension_of_path("/a/.hidden"), None);
    assert_eq!(extension_of_path("notes."), Some(String::new()));
    assert_eq!(FileTypeDetector::detect_mime_type("/x/y/page.htm"), "text/html");
}
