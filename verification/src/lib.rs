pub mod codec;
pub mod util;
pub mod world;
pub mod vecmap;
pub mod mesher;
pub mod random;
pub mod side;
pub mod total_float;
pub mod audio;
pub mod debug;
pub mod graphics;
pub mod net;
pub mod physics;
pub mod player;
