use ecs_world::entities::NoSuchEntity;
use ecs_world::error::{ComponentError, MissingComponent, QueryOneError};
use ecs_world::types::TypeInfo;

#[test]
fn messages() {
    let missing = MissingComponent::new(TypeInfo { id: 1, name: "i32" });
    assert_eq!(missing.message(), "missing i32 component");
    assert_eq!(ComponentError::NoSuchEntity.message(), "no such entity");
    assert_eq!(ComponentError::MissingComponent(missing).message(), "missing i32 component");
    assert_eq!(QueryOneError::NoSuchEntity.message(), "no such entity");
    assert_eq!(QueryOneError::Unsatisfied.message(), "unsatisfied");
}

#[test]
fn conversions() {
    assert_eq!(ComponentError::from(NoSuchEntity), ComponentError::NoSuchEntity);
    assert_eq!(QueryOneError::from(NoSuchEntity), QueryOneError::NoSuchEntity);
    assert_eq!(
        ComponentError::from(MissingComponent("bool")),
        ComponentError::MissingComponent(MissingComponent("bool"))
    );
}
