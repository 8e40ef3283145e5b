use xml_skimmer::SkimError;

#[test]
fn benchmark() -> Result<(), SkimError> {
    Ok(())
}
