use hyphae::shared::{
    current_version, Q15Vector, VectorSpaceDefinition, VectorSpaceName, VectorValueError,
    API_VERSION, DISK_FORMAT_VERSION, PRODUCT_NAME,
};

#[test]
fn current_version_matches_public_constants() {
    let version = current_version();
    assert_eq!(version.product, PRODUCT_NAME);
    assert_eq!(version.api, API_VERSION);
    assert_eq!(version.disk_format, DISK_FORMAT_VERSION);
    assert!(!version.engine.is_empty());
}

#[test]
fn vector_space_names_follow_the_canonical_ascii_grammar() -> Result<(), VectorValueError> {
    let name = VectorSpaceName::new("semantic.v1")?;
    assert_eq!(name.as_str(), "semantic.v1");
    assert_eq!(
        VectorSpaceName::new("1semantic"),
        Err(VectorValueError::InvalidSpaceName)
    );
    assert_eq!(
        VectorSpaceName::new("semántica"),
        Err(VectorValueError::InvalidSpaceName)
    );
    Ok(())
}

#[test]
fn q15_vectors_are_nonzero_bounded_and_dimension_checked() -> Result<(), VectorValueError> {
    let vector = Q15Vector::new(vec![32_767, 0])?;
    let space = VectorSpaceDefinition::cosine(VectorSpaceName::new("semantic")?, 2)?;
    assert_eq!(space.validate_vector(&vector), Ok(()));
    assert_eq!(
        Q15Vector::new(vec![i16::MIN]),
        Err(VectorValueError::InvalidQ15Element)
    );
    assert_eq!(Q15Vector::new(vec![0, 0]), Err(VectorValueError::ZeroVector));
    Ok(())
}

#[test]
fn space_name_edge_cases() {
    assert_eq!(VectorSpaceName::new(""), Err(VectorValueError::EmptySpaceName));
    let long = "a".repeat(129);
    assert_eq!(
        VectorSpaceName::new(&long),
        Err(VectorValueError::SpaceNameTooLong)
    );
    assert!(VectorSpaceName::new(&"a".repeat(128)).is_ok());
    assert!(VectorSpaceName::new("a_b-c.d9").is_ok());
    assert_eq!(
        VectorSpaceName::new("a b"),
        Err(VectorValueError::InvalidSpaceName)
    );
}

#[test]
fn q15_edge_cases() {
    assert_eq!(Q15Vector::new(vec![]), Err(VectorValueError::EmptyVector));
    assert_eq!(
        Q15Vector::new(vec![1; 4097]),
        Err(VectorValueError::DimensionTooLarge)
    );
    let v = Q15Vector::new(vec![1; 4096]).unwrap();
    assert_eq!(v.dimension(), 4096);
    assert_eq!(v.as_slice().len(), 4096);
    assert_eq!(Q15Vector::new(vec![-32_767, 5]).unwrap().into_vec(), vec![-32_767, 5]);
}

#[test]
fn vector_space_rejects_wrong_dimension() {
    let space = VectorSpaceDefinition::cosine(VectorSpaceName::new("s").unwrap(), 3).unwrap();
    let vector = Q15Vector::new(vec![1, 2]).unwrap();
    assert_eq!(
        space.validate_vector(&vector),
        Err(VectorValueError::DimensionMismatch)
    );
    assert_eq!(
        VectorSpaceDefinition::cosine(VectorSpaceName::new("s").unwrap(), 0).map(|_| ()),
        Err(VectorValueError::EmptyVector)
    );
}
