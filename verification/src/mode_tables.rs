//! Tables of the canonical 48 kHz mode with 20 ms frames.

use vstd::prelude::*;
use crate::band_encode::angles_coded;
use crate::band_laws::even_bands;
use crate::laws::regular;
use crate::mdct::{copied, paired, MdctLookup, Twiddle};
use crate::mode::{OpusCustomMode, PulseCache};
use crate::mode_laws::{law_canonical_mode_codes_angles, law_canonical_mode_is_regular};

verus! {

/// Band edges, in units of one short-block bin.
pub const EBANDS_48000: [i16; 22] = [
    0, 1, 2, 3, 4, 5, 6, 7, 8, 10, 12, 14, 16, 20, 24, 28, 34, 40, 48, 60, 78, 100,
];

/// Base-two logarithms of the band widths, in 1/8 units.
pub const LOG_N_48000: [i16; 21] = [
    0, 0, 0, 0, 0, 0, 0, 0, 8, 8, 8, 8, 16, 16, 16, 21, 21, 24, 29, 34, 36,
];

/// Bit allocation vectors, one row of bands per quality level.
pub const BAND_ALLOCATION: [u8; 231] = [
    0, 0, 0, 0, 0, 0, 0, 0, 0, 0, 0, 0, 0, 0, 0, 0, 0, 0, 0, 0, 0, 90, 80, 75, 69, 63, 56, 49, 40,
    34, 29, 20, 18, 10, 0, 0, 0, 0, 0, 0, 0, 0, 110, 100, 90, 84, 78, 71, 65, 58, 51, 45, 39, 32,
    26, 20, 12, 0, 0, 0, 0, 0, 0, 118, 110, 103, 93, 86, 80, 75, 70, 65, 59, 53, 47, 40, 31, 23, 15,
    4, 0, 0, 0, 0, 126, 119, 112, 104, 95, 89, 83, 78, 72, 66, 60, 54, 47, 39, 32, 25, 17, 12, 1, 0,
    0, 134, 127, 120, 114, 103, 97, 91, 85, 78, 72, 66, 60, 54, 47, 41, 35, 29, 23, 16, 10, 1, 144,
    137, 130, 124, 113, 107, 101, 95, 88, 82, 76, 70, 64, 57, 51, 45, 39, 33, 26, 15, 1, 152, 145,
    138, 132, 123, 117, 111, 105, 98, 92, 86, 80, 74, 67, 61, 55, 49, 43, 36, 20, 1, 162, 155, 148,
    142, 133, 127, 121, 115, 108, 102, 96, 90, 84, 77, 71, 65, 59, 53, 46, 30, 1, 172, 165, 158,
    152, 143, 137, 131, 125, 118, 112, 106, 100, 94, 87, 81, 75, 69, 63, 56, 45, 20, 200, 200, 200,
    200, 200, 200, 200, 200, 198, 193, 188, 183, 178, 173, 168, 163, 158, 153, 148, 129, 104,
];

/// Start of the pulse-cost run of each band and block size.
pub const CACHE_INDEX_48000: [i16; 105] = [
    -1, -1, -1, -1, -1, -1, -1, -1, 0, 0, 0, 0, 41, 41, 41, 82, 82, 123, 164, 200, 222, 0, 0, 0, 0,
    0, 0, 0, 0, 41, 41, 41, 41, 123, 123, 123, 164, 164, 240, 266, 283, 295, 41, 41, 41, 41, 41, 41,
    41, 41, 123, 123, 123, 123, 240, 240, 240, 266, 266, 305, 318, 328, 336, 123, 123, 123, 123,
    123, 123, 123, 123, 240, 240, 240, 240, 305, 305, 305, 318, 318, 343, 351, 358, 364, 240, 240,
    240, 240, 240, 240, 240, 240, 305, 305, 305, 305, 343, 343, 343, 351, 351, 370, 376, 382, 387,
];

/// Pulse-cost runs: a length followed by the cost of each pulse count.
pub const CACHE_BITS_48000: [u8; 392] = [
    40, 7, 7, 7, 7, 7, 7, 7, 7, 7, 7, 7, 7, 7, 7, 7, 7, 7, 7, 7, 7, 7, 7, 7, 7, 7, 7, 7, 7, 7, 7, 7,
    7, 7, 7, 7, 7, 7, 7, 7, 7, 40, 15, 23, 28, 31, 34, 36, 38, 39, 41, 42, 43, 44, 45, 46, 47, 47,
    49, 50, 51, 52, 53, 54, 55, 55, 57, 58, 59, 60, 61, 62, 63, 63, 65, 66, 67, 68, 69, 70, 71, 71,
    40, 20, 33, 41, 48, 53, 57, 61, 64, 66, 69, 71, 73, 75, 76, 78, 80, 82, 85, 87, 89, 91, 92, 94,
    96, 98, 101, 103, 105, 107, 108, 110, 112, 114, 117, 119, 121, 123, 124, 126, 128, 40, 23, 39,
    51, 60, 67, 73, 79, 83, 87, 91, 94, 97, 100, 102, 105, 107, 111, 115, 118, 121, 124, 126, 129,
    131, 135, 139, 142, 145, 148, 150, 153, 155, 159, 163, 166, 169, 172, 174, 177, 179, 35, 28, 49,
    65, 78, 89, 99, 107, 114, 120, 126, 132, 136, 141, 145, 149, 153, 159, 165, 171, 176, 180, 185,
    189, 192, 199, 205, 211, 216, 220, 225, 229, 232, 239, 245, 251, 21, 33, 58, 79, 97, 112, 125,
    137, 148, 157, 166, 174, 182, 189, 195, 201, 207, 217, 227, 235, 243, 251, 17, 35, 63, 86, 106,
    123, 139, 152, 165, 177, 187, 197, 206, 214, 222, 230, 237, 250, 25, 31, 55, 75, 91, 105, 117,
    128, 138, 146, 154, 161, 168, 174, 180, 185, 190, 200, 208, 215, 222, 229, 235, 240, 245, 255,
    16, 36, 65, 89, 110, 128, 144, 159, 173, 185, 196, 207, 217, 226, 234, 242, 250, 11, 41, 74,
    103, 128, 151, 172, 191, 209, 225, 241, 255, 9, 43, 79, 110, 138, 163, 186, 207, 227, 246, 12,
    39, 71, 99, 123, 144, 164, 182, 198, 214, 228, 241, 253, 9, 44, 81, 113, 142, 168, 192, 214,
    235, 255, 7, 49, 90, 127, 160, 191, 220, 247, 6, 51, 95, 134, 170, 203, 234, 7, 47, 87, 123,
    155, 184, 212, 237, 6, 52, 97, 137, 174, 208, 240, 5, 57, 106, 151, 192, 231, 5, 59, 111, 158,
    202, 243, 5, 55, 103, 147, 187, 224, 5, 60, 113, 161, 206, 248, 4, 65, 122, 175, 224, 4, 67,
    127, 182, 234,
];

/// Per-band limits of the useful allocation.
pub const CACHE_CAPS_48000: [u8; 168] = [
    224, 224, 224, 224, 224, 224, 224, 224, 160, 160, 160, 160, 185, 185, 185, 178, 178, 168, 134,
    61, 37, 224, 224, 224, 224, 224, 224, 224, 224, 240, 240, 240, 240, 207, 207, 207, 198, 198,
    183, 144, 66, 40, 160, 160, 160, 160, 160, 160, 160, 160, 185, 185, 185, 185, 193, 193, 193,
    183, 183, 172, 138, 64, 38, 240, 240, 240, 240, 240, 240, 240, 240, 207, 207, 207, 207, 204,
    204, 204, 193, 193, 180, 143, 66, 40, 185, 185, 185, 185, 185, 185, 185, 185, 193, 193, 193,
    193, 193, 193, 193, 183, 183, 172, 138, 65, 39, 207, 207, 207, 207, 207, 207, 207, 207, 204,
    204, 204, 204, 201, 201, 201, 188, 188, 176, 141, 66, 40, 193, 193, 193, 193, 193, 193, 193,
    193, 193, 193, 193, 193, 194, 194, 194, 184, 184, 173, 139, 65, 39, 204, 204, 204, 204, 204,
    204, 204, 204, 201, 201, 201, 201, 198, 198, 198, 187, 187, 175, 140, 66, 40,
];

/// Rising half of the synthesis window, in Q15.
pub const WINDOW_48000: [i16; 120] = [
    2, 20, 55, 108, 178, 266, 372, 494, 635, 792, 966, 1157, 1365, 1590, 1831, 2089, 2362, 2651,
    2956, 3276, 3611, 3961, 4325, 4703, 5094, 5499, 5916, 6346, 6788, 7241, 7705, 8179, 8663, 9156,
    9657, 10167, 10684, 11207, 11736, 12271, 12810, 13353, 13899, 14447, 14997, 15547, 16098, 16648,
    17197, 17744, 18287, 18827, 19363, 19893, 20418, 20936, 21447, 21950, 22445, 22931, 23407,
    23874, 24330, 24774, 25208, 25629, 26039, 26435, 26819, 27190, 27548, 27893, 28224, 28541,
    28845, 29135, 29411, 29674, 29924, 30160, 30384, 30594, 30792, 30977, 31151, 31313, 31463,
    31602, 31731, 31849, 31958, 32057, 32148, 32229, 32303, 32370, 32429, 32481, 32528, 32568,
    32604, 32634, 32661, 32683, 32701, 32717, 32729, 32740, 32748, 32754, 32758, 32762, 32764,
    32766, 32767, 32767, 32767, 32767, 32767, 32767,
];

/// Rotations of the transform of 960 coefficients, in Q15.
pub const TRIG_1920: [i16; 960] = [
    32767, 32767, 32767, 32766, 32765, 32763, 32761, 32759, 32756, 32753, 32750, 32746, 32742,
    32738, 32733, 32728, 32722, 32717, 32710, 32704, 32697, 32690, 32682, 32674, 32666, 32657,
    32648, 32639, 32629, 32619, 32609, 32598, 32587, 32576, 32564, 32552, 32539, 32526, 32513,
    32500, 32486, 32472, 32457, 32442, 32427, 32411, 32395, 32379, 32362, 32345, 32328, 32310,
    32292, 32274, 32255, 32236, 32217, 32197, 32177, 32157, 32136, 32115, 32093, 32071, 32049,
    32027, 32004, 31981, 31957, 31933, 31909, 31884, 31859, 31834, 31809, 31783, 31756, 31730,
    31703, 31676, 31648, 31620, 31592, 31563, 31534, 31505, 31475, 31445, 31415, 31384, 31353,
    31322, 31290, 31258, 31226, 31193, 31160, 31127, 31093, 31059, 31025, 30990, 30955, 30920,
    30884, 30848, 30812, 30775, 30738, 30701, 30663, 30625, 30587, 30548, 30509, 30470, 30430,
    30390, 30350, 30309, 30269, 30227, 30186, 30144, 30102, 30059, 30016, 29973, 29930, 29886,
    29842, 29797, 29752, 29707, 29662, 29616, 29570, 29524, 29477, 29430, 29383, 29335, 29287,
    29239, 29190, 29142, 29092, 29043, 28993, 28943, 28892, 28842, 28791, 28739, 28688, 28636,
    28583, 28531, 28478, 28425, 28371, 28317, 28263, 28209, 28154, 28099, 28044, 27988, 27932,
    27876, 27820, 27763, 27706, 27648, 27591, 27533, 27474, 27416, 27357, 27298, 27238, 27178,
    27118, 27058, 26997, 26936, 26875, 26814, 26752, 26690, 26628, 26565, 26502, 26439, 26375,
    26312, 26247, 26183, 26119, 26054, 25988, 25923, 25857, 25791, 25725, 25658, 25592, 25524,
    25457, 25389, 25322, 25253, 25185, 25116, 25047, 24978, 24908, 24838, 24768, 24698, 24627,
    24557, 24485, 24414, 24342, 24270, 24198, 24126, 24053, 23980, 23907, 23834, 23760, 23686,
    23612, 23537, 23462, 23387, 23312, 23237, 23161, 23085, 23009, 22932, 22856, 22779, 22701,
    22624, 22546, 22468, 22390, 22312, 22233, 22154, 22075, 21996, 21916, 21836, 21756, 21676,
    21595, 21515, 21434, 21352, 21271, 21189, 21107, 21025, 20943, 20860, 20777, 20694, 20611,
    20528, 20444, 20360, 20276, 20192, 20107, 20022, 19937, 19852, 19767, 19681, 19595, 19509,
    19423, 19336, 19250, 19163, 19076, 18988, 18901, 18813, 18725, 18637, 18549, 18460, 18372,
    18283, 18194, 18104, 18015, 17925, 17835, 17745, 17655, 17565, 17474, 17383, 17292, 17201,
    17110, 17018, 16927, 16835, 16743, 16650, 16558, 16465, 16372, 16279, 16186, 16093, 15999,
    15906, 15812, 15718, 15624, 15529, 15435, 15340, 15245, 15150, 15055, 14960, 14864, 14769,
    14673, 14577, 14481, 14385, 14288, 14192, 14095, 13998, 13901, 13804, 13706, 13609, 13511,
    13414, 13316, 13218, 13119, 13021, 12923, 12824, 12725, 12626, 12527, 12428, 12329, 12230,
    12130, 12030, 11930, 11831, 11730, 11630, 11530, 11430, 11329, 11228, 11128, 11027, 10926,
    10824, 10723, 10622, 10520, 10419, 10317, 10215, 10113, 10011, 9909, 9807, 9704, 9602, 9499,
    9397, 9294, 9191, 9088, 8985, 8882, 8778, 8675, 8572, 8468, 8364, 8261, 8157, 8053, 7949,
    7845, 7741, 7637, 7532, 7428, 7323, 7219, 7114, 7009, 6905, 6800, 6695, 6590, 6485, 6380,
    6274, 6169, 6064, 5958, 5853, 5747, 5642, 5536, 5430, 5325, 5219, 5113, 5007, 4901, 4795,
    4689, 4583, 4476, 4370, 4264, 4157, 4051, 3945, 3838, 3732, 3625, 3518, 3412, 3305, 3198,
    3092, 2985, 2878, 2771, 2664, 2558, 2451, 2344, 2237, 2130, 2023, 1916, 1809, 1702, 1594,
    1487, 1380, 1273, 1166, 1059, 952, 844, 737, 630, 523, 416, 308, 201, 94, -13, -121, -228,
    -335, -442, -550, -657, -764, -871, -978, -1086, -1193, -1300, -1407, -1514, -1621, -1728,
    -1835, -1942, -2049, -2157, -2263, -2370, -2477, -2584, -2691, -2798, -2905, -3012, -3118,
    -3225, -3332, -3439, -3545, -3652, -3758, -3865, -3971, -4078, -4184, -4290, -4397, -4503,
    -4609, -4715, -4821, -4927, -5033, -5139, -5245, -5351, -5457, -5562, -5668, -5774, -5879,
    -5985, -6090, -6195, -6301, -6406, -6511, -6616, -6721, -6826, -6931, -7036, -7140, -7245,
    -7349, -7454, -7558, -7663, -7767, -7871, -7975, -8079, -8183, -8287, -8390, -8494, -8597,
    -8701, -8804, -8907, -9011, -9114, -9217, -9319, -9422, -9525, -9627, -9730, -9832, -9934,
    -10037, -10139, -10241, -10342, -10444, -10546, -10647, -10748, -10850, -10951, -11052,
    -11153, -11253, -11354, -11455, -11555, -11655, -11756, -11856, -11955, -12055, -12155,
    -12254, -12354, -12453, -12552, -12651, -12750, -12849, -12947, -13046, -13144, -13242,
    -13340, -13438, -13536, -13633, -13731, -13828, -13925, -14022, -14119, -14216, -14312,
    -14409, -14505, -14601, -14697, -14793, -14888, -14984, -15079, -15174, -15269, -15364,
    -15459, -15553, -15647, -15741, -15835, -15929, -16023, -16116, -16210, -16303, -16396,
    -16488, -16581, -16673, -16766, -16858, -16949, -17041, -17133, -17224, -17315, -17406,
    -17497, -17587, -17678, -17768, -17858, -17948, -18037, -18127, -18216, -18305, -18394,
    -18483, -18571, -18659, -18747, -18835, -18923, -19010, -19098, -19185, -19271, -19358,
    -19444, -19531, -19617, -19702, -19788, -19873, -19959, -20043, -20128, -20213, -20297,
    -20381, -20465, -20549, -20632, -20715, -20798, -20881, -20963, -21046, -21128, -21210,
    -21291, -21373, -21454, -21535, -21616, -21696, -21776, -21856, -21936, -22016, -22095,
    -22174, -22253, -22331, -22410, -22488, -22566, -22643, -22721, -22798, -22875, -22951,
    -23028, -23104, -23180, -23256, -23331, -23406, -23481, -23556, -23630, -23704, -23778,
    -23852, -23925, -23998, -24071, -24144, -24216, -24288, -24360, -24432, -24503, -24574,
    -24645, -24716, -24786, -24856, -24926, -24995, -25064, -25133, -25202, -25270, -25339,
    -25406, -25474, -25541, -25608, -25675, -25742, -25808, -25874, -25939, -26005, -26070,
    -26135, -26199, -26264, -26327, -26391, -26455, -26518, -26581, -26643, -26705, -26767,
    -26829, -26891, -26952, -27013, -27073, -27133, -27193, -27253, -27312, -27372, -27430,
    -27489, -27547, -27605, -27663, -27720, -27777, -27834, -27890, -27946, -28002, -28058,
    -28113, -28168, -28223, -28277, -28331, -28385, -28438, -28491, -28544, -28596, -28649,
    -28701, -28752, -28803, -28854, -28905, -28955, -29006, -29055, -29105, -29154, -29203,
    -29251, -29299, -29347, -29395, -29442, -29489, -29535, -29582, -29628, -29673, -29719,
    -29764, -29808, -29853, -29897, -29941, -29984, -30027, -30070, -30112, -30154, -30196,
    -30238, -30279, -30320, -30360, -30400, -30440, -30480, -30519, -30558, -30596, -30635,
    -30672, -30710, -30747, -30784, -30821, -30857, -30893, -30929, -30964, -30999, -31033,
    -31068, -31102, -31135, -31168, -31201, -31234, -31266, -31298, -31330, -31361, -31392,
    -31422, -31453, -31483, -31512, -31541, -31570, -31599, -31627, -31655, -31682, -31710,
    -31737, -31763, -31789, -31815, -31841, -31866, -31891, -31915, -31939, -31963, -31986,
    -32010, -32032, -32055, -32077, -32099, -32120, -32141, -32162, -32182, -32202, -32222,
    -32241, -32260, -32279, -32297, -32315, -32333, -32350, -32367, -32383, -32399, -32415,
    -32431, -32446, -32461, -32475, -32489, -32503, -32517, -32530, -32542, -32555, -32567,
    -32579, -32590, -32601, -32612, -32622, -32632, -32641, -32651, -32659, -32668, -32676,
    -32684, -32692, -32699, -32706, -32712, -32718, -32724, -32729, -32734, -32739, -32743,
    -32747, -32751, -32754, -32757, -32760, -32762, -32764, -32765, -32767, -32767, -32767,
];

/// Rotations of the transform of 480 coefficients, in Q15.
pub const TRIG_960: [i16; 480] = [
    32767, 32767, 32765, 32761, 32756, 32750, 32742, 32732, 32722, 32710, 32696, 32681, 32665,
    32647, 32628, 32608, 32586, 32562, 32538, 32512, 32484, 32455, 32425, 32393, 32360, 32326,
    32290, 32253, 32214, 32174, 32133, 32090, 32046, 32001, 31954, 31906, 31856, 31805, 31753,
    31700, 31645, 31588, 31530, 31471, 31411, 31349, 31286, 31222, 31156, 31089, 31020, 30951,
    30880, 30807, 30733, 30658, 30582, 30504, 30425, 30345, 30263, 30181, 30096, 30011, 29924,
    29836, 29747, 29656, 29564, 29471, 29377, 29281, 29184, 29086, 28987, 28886, 28784, 28681,
    28577, 28471, 28365, 28257, 28147, 28037, 27925, 27812, 27698, 27583, 27467, 27349, 27231,
    27111, 26990, 26868, 26744, 26620, 26494, 26367, 26239, 26110, 25980, 25849, 25717, 25583,
    25449, 25313, 25176, 25038, 24900, 24760, 24619, 24477, 24333, 24189, 24044, 23898, 23751,
    23602, 23453, 23303, 23152, 22999, 22846, 22692, 22537, 22380, 22223, 22065, 21906, 21746,
    21585, 21423, 21261, 21097, 20933, 20767, 20601, 20434, 20265, 20096, 19927, 19756, 19584,
    19412, 19239, 19065, 18890, 18714, 18538, 18361, 18183, 18004, 17824, 17644, 17463, 17281,
    17098, 16915, 16731, 16546, 16361, 16175, 15988, 15800, 15612, 15423, 15234, 15043, 14852,
    14661, 14469, 14276, 14083, 13889, 13694, 13499, 13303, 13107, 12910, 12713, 12515, 12317,
    12118, 11918, 11718, 11517, 11316, 11115, 10913, 10710, 10508, 10304, 10100, 9896, 9691, 9486,
    9281, 9075, 8869, 8662, 8455, 8248, 8040, 7832, 7623, 7415, 7206, 6996, 6787, 6577, 6366,
    6156, 5945, 5734, 5523, 5311, 5100, 4888, 4675, 4463, 4251, 4038, 3825, 3612, 3399, 3185,
    2972, 2758, 2544, 2330, 2116, 1902, 1688, 1474, 1260, 1045, 831, 617, 402, 188, -27, -241,
    -456, -670, -885, -1099, -1313, -1528, -1742, -1956, -2170, -2384, -2598, -2811, -3025, -3239,
    -3452, -3665, -3878, -4091, -4304, -4516, -4728, -4941, -5153, -5364, -5576, -5787, -5998,
    -6209, -6419, -6629, -6839, -7049, -7258, -7467, -7676, -7884, -8092, -8300, -8507, -8714,
    -8920, -9127, -9332, -9538, -9743, -9947, -10151, -10355, -10558, -10761, -10963, -11165,
    -11367, -11568, -11768, -11968, -12167, -12366, -12565, -12762, -12960, -13156, -13352,
    -13548, -13743, -13937, -14131, -14324, -14517, -14709, -14900, -15091, -15281, -15470,
    -15659, -15847, -16035, -16221, -16407, -16593, -16777, -16961, -17144, -17326, -17508,
    -17689, -17869, -18049, -18227, -18405, -18582, -18758, -18934, -19108, -19282, -19455,
    -19627, -19799, -19969, -20139, -20308, -20475, -20642, -20809, -20974, -21138, -21301,
    -21464, -21626, -21786, -21946, -22105, -22263, -22420, -22575, -22730, -22884, -23037,
    -23189, -23340, -23490, -23640, -23788, -23935, -24080, -24225, -24369, -24512, -24654,
    -24795, -24934, -25073, -25211, -25347, -25482, -25617, -25750, -25882, -26013, -26143,
    -26272, -26399, -26526, -26651, -26775, -26898, -27020, -27141, -27260, -27379, -27496,
    -27612, -27727, -27841, -27953, -28065, -28175, -28284, -28391, -28498, -28603, -28707,
    -28810, -28911, -29012, -29111, -29209, -29305, -29401, -29495, -29587, -29679, -29769,
    -29858, -29946, -30032, -30118, -30201, -30284, -30365, -30445, -30524, -30601, -30677,
    -30752, -30825, -30897, -30968, -31038, -31106, -31172, -31238, -31302, -31365, -31426,
    -31486, -31545, -31602, -31658, -31713, -31766, -31818, -31869, -31918, -31966, -32012,
    -32058, -32101, -32144, -32185, -32224, -32262, -32299, -32335, -32369, -32401, -32433,
    -32463, -32491, -32518, -32544, -32568, -32591, -32613, -32633, -32652, -32669, -32685,
    -32700, -32713, -32724, -32735, -32744, -32751, -32757, -32762, -32766, -32767,
];

/// Rotations of the transform of 240 coefficients, in Q15.
pub const TRIG_480: [i16; 240] = [
    32767, 32764, 32755, 32741, 32720, 32694, 32663, 32626, 32583, 32535, 32481, 32421, 32356,
    32286, 32209, 32128, 32041, 31948, 31850, 31747, 31638, 31523, 31403, 31278, 31148, 31012,
    30871, 30724, 30572, 30415, 30253, 30086, 29913, 29736, 29553, 29365, 29172, 28974, 28771,
    28564, 28351, 28134, 27911, 27684, 27452, 27216, 26975, 26729, 26478, 26223, 25964, 25700,
    25432, 25159, 24882, 24601, 24315, 24026, 23732, 23434, 23133, 22827, 22517, 22204, 21886,
    21565, 21240, 20912, 20580, 20244, 19905, 19563, 19217, 18868, 18516, 18160, 17802, 17440,
    17075, 16708, 16338, 15964, 15588, 15210, 14829, 14445, 14059, 13670, 13279, 12886, 12490,
    12093, 11693, 11291, 10888, 10482, 10075, 9666, 9255, 8843, 8429, 8014, 7597, 7180, 6760,
    6340, 5919, 5496, 5073, 4649, 4224, 3798, 3372, 2945, 2517, 2090, 1661, 1233, 804, 375, -54,
    -483, -911, -1340, -1768, -2197, -2624, -3052, -3479, -3905, -4330, -4755, -5179, -5602,
    -6024, -6445, -6865, -7284, -7702, -8118, -8533, -8946, -9358, -9768, -10177, -10584, -10989,
    -11392, -11793, -12192, -12589, -12984, -13377, -13767, -14155, -14541, -14924, -15305,
    -15683, -16058, -16430, -16800, -17167, -17531, -17892, -18249, -18604, -18956, -19304,
    -19649, -19990, -20329, -20663, -20994, -21322, -21646, -21966, -22282, -22595, -22904,
    -23208, -23509, -23806, -24099, -24387, -24672, -24952, -25228, -25499, -25766, -26029,
    -26288, -26541, -26791, -27035, -27275, -27511, -27741, -27967, -28188, -28405, -28616,
    -28823, -29024, -29221, -29412, -29599, -29780, -29957, -30128, -30294, -30455, -30611,
    -30761, -30906, -31046, -31181, -31310, -31434, -31552, -31665, -31773, -31875, -31972,
    -32063, -32149, -32229, -32304, -32373, -32437, -32495, -32547, -32594, -32635, -32671,
    -32701, -32726, -32745, -32758, -32766,
];

/// Rotations of the transform of 120 coefficients, in Q15.
pub const TRIG_240: [i16; 120] = [
    32767, 32754, 32717, 32658, 32577, 32473, 32348, 32200, 32029, 31837, 31624, 31388, 31131,
    30853, 30553, 30232, 29891, 29530, 29148, 28746, 28324, 27883, 27423, 26944, 26447, 25931,
    25398, 24847, 24279, 23695, 23095, 22478, 21846, 21199, 20538, 19863, 19174, 18472, 17757,
    17030, 16291, 15541, 14781, 14010, 13230, 12441, 11643, 10837, 10024, 9204, 8377, 7545, 6708,
    5866, 5020, 4171, 3319, 2464, 1608, 751, -107, -965, -1822, -2678, -3532, -4383, -5232, -6077,
    -6918, -7754, -8585, -9409, -10228, -11039, -11843, -12639, -13426, -14204, -14972, -15730,
    -16477, -17213, -17937, -18648, -19347, -20033, -20705, -21363, -22006, -22634, -23246,
    -23843, -24423, -24986, -25533, -26062, -26573, -27066, -27540, -27995, -28431, -28848,
    -29245, -29622, -29979, -30315, -30630, -30924, -31197, -31449, -31679, -31887, -32074,
    -32239, -32381, -32501, -32600, -32675, -32729, -32759,
];

/// Real parts of the 480th roots of unity, in Q15.
pub const TWIDDLES_R: [i16; 480] = [
    32767, 32765, 32757, 32743, 32723, 32698, 32667, 32631, 32588, 32541, 32488, 32429, 32365,
    32295, 32219, 32138, 32052, 31960, 31863, 31760, 31651, 31538, 31419, 31294, 31164, 31029,
    30888, 30743, 30592, 30435, 30274, 30107, 29935, 29758, 29576, 29389, 29197, 28999, 28797,
    28590, 28378, 28161, 27939, 27713, 27482, 27246, 27005, 26760, 26510, 26255, 25997, 25733,
    25466, 25193, 24917, 24636, 24351, 24062, 23769, 23472, 23170, 22865, 22556, 22243, 21926,
    21605, 21281, 20953, 20622, 20286, 19948, 19606, 19261, 18912, 18560, 18205, 17847, 17485,
    17121, 16754, 16384, 16011, 15636, 15257, 14876, 14493, 14107, 13719, 13328, 12935, 12540,
    12142, 11743, 11342, 10938, 10533, 10126, 9717, 9307, 8895, 8481, 8066, 7650, 7232, 6813,
    6393, 5971, 5549, 5126, 4702, 4277, 3851, 3425, 2998, 2571, 2143, 1715, 1286, 858, 429, 0,
    -429, -858, -1286, -1715, -2143, -2571, -2998, -3425, -3851, -4277, -4702, -5126, -5549,
    -5971, -6393, -6813, -7232, -7650, -8066, -8481, -8895, -9307, -9717, -10126, -10533, -10938,
    -11342, -11743, -12142, -12540, -12935, -13328, -13719, -14107, -14493, -14876, -15257,
    -15636, -16011, -16384, -16754, -17121, -17485, -17847, -18205, -18560, -18912, -19261,
    -19606, -19948, -20286, -20622, -20953, -21281, -21605, -21926, -22243, -22556, -22865,
    -23170, -23472, -23769, -24062, -24351, -24636, -24917, -25193, -25466, -25733, -25997,
    -26255, -26510, -26760, -27005, -27246, -27482, -27713, -27939, -28161, -28378, -28590,
    -28797, -28999, -29197, -29389, -29576, -29758, -29935, -30107, -30274, -30435, -30592,
    -30743, -30888, -31029, -31164, -31294, -31419, -31538, -31651, -31760, -31863, -31960,
    -32052, -32138, -32219, -32295, -32365, -32429, -32488, -32541, -32588, -32631, -32667,
    -32698, -32723, -32743, -32757, -32765, -32767, -32765, -32757, -32743, -32723, -32698,
    -32667, -32631, -32588, -32541, -32488, -32429, -32365, -32295, -32219, -32138, -32052,
    -31960, -31863, -31760, -31651, -31538, -31419, -31294, -31164, -31029, -30888, -30743,
    -30592, -30435, -30274, -30107, -29935, -29758, -29576, -29389, -29197, -28999, -28797,
    -28590, -28378, -28161, -27939, -27713, -27482, -27246, -27005, -26760, -26510, -26255,
    -25997, -25733, -25466, -25193, -24917, -24636, -24351, -24062, -23769, -23472, -23170,
    -22865, -22556, -22243, -21926, -21605, -21281, -20953, -20622, -20286, -19948, -19606,
    -19261, -18912, -18560, -18205, -17847, -17485, -17121, -16754, -16384, -16011, -15636,
    -15257, -14876, -14493, -14107, -13719, -13328, -12935, -12540, -12142, -11743, -11342,
    -10938, -10533, -10126, -9717, -9307, -8895, -8481, -8066, -7650, -7232, -6813, -6393, -5971,
    -5549, -5126, -4702, -4277, -3851, -3425, -2998, -2571, -2143, -1715, -1286, -858, -429, 0,
    429, 858, 1286, 1715, 2143, 2571, 2998, 3425, 3851, 4277, 4702, 5126, 5549, 5971, 6393, 6813,
    7232, 7650, 8066, 8481, 8895, 9307, 9717, 10126, 10533, 10938, 11342, 11743, 12142, 12540,
    12935, 13328, 13719, 14107, 14493, 14876, 15257, 15636, 16011, 16384, 16754, 17121, 17485,
    17847, 18205, 18560, 18912, 19261, 19606, 19948, 20286, 20622, 20953, 21281, 21605, 21926,
    22243, 22556, 22865, 23170, 23472, 23769, 24062, 24351, 24636, 24917, 25193, 25466, 25733,
    25997, 26255, 26510, 26760, 27005, 27246, 27482, 27713, 27939, 28161, 28378, 28590, 28797,
    28999, 29197, 29389, 29576, 29758, 29935, 30107, 30274, 30435, 30592, 30743, 30888, 31029,
    31164, 31294, 31419, 31538, 31651, 31760, 31863, 31960, 32052, 32138, 32219, 32295, 32365,
    32429, 32488, 32541, 32588, 32631, 32667, 32698, 32723, 32743, 32757, 32765,
];

/// Imaginary parts of the 480th roots of unity, turned against the circle, in Q15.
pub const TWIDDLES_I: [i16; 480] = [
    0, -429, -858, -1286, -1715, -2143, -2571, -2998, -3425, -3851, -4277, -4702, -5126, -5549,
    -5971, -6393, -6813, -7232, -7650, -8066, -8481, -8895, -9307, -9717, -10126, -10533, -10938,
    -11342, -11743, -12142, -12540, -12935, -13328, -13719, -14107, -14493, -14876, -15257,
    -15636, -16011, -16384, -16754, -17121, -17485, -17847, -18205, -18560, -18912, -19261,
    -19606, -19948, -20286, -20622, -20953, -21281, -21605, -21926, -22243, -22556, -22865,
    -23170, -23472, -23769, -24062, -24351, -24636, -24917, -25193, -25466, -25733, -25997,
    -26255, -26510, -26760, -27005, -27246, -27482, -27713, -27939, -28161, -28378, -28590,
    -28797, -28999, -29197, -29389, -29576, -29758, -29935, -30107, -30274, -30435, -30592,
    -30743, -30888, -31029, -31164, -31294, -31419, -31538, -31651, -31760, -31863, -31960,
    -32052, -32138, -32219, -32295, -32365, -32429, -32488, -32541, -32588, -32631, -32667,
    -32698, -32723, -32743, -32757, -32765, -32767, -32765, -32757, -32743, -32723, -32698,
    -32667, -32631, -32588, -32541, -32488, -32429, -32365, -32295, -32219, -32138, -32052,
    -31960, -31863, -31760, -31651, -31538, -31419, -31294, -31164, -31029, -30888, -30743,
    -30592, -30435, -30274, -30107, -29935, -29758, -29576, -29389, -29197, -28999, -28797,
    -28590, -28378, -28161, -27939, -27713, -27482, -27246, -27005, -26760, -26510, -26255,
    -25997, -25733, -25466, -25193, -24917, -24636, -24351, -24062, -23769, -23472, -23170,
    -22865, -22556, -22243, -21926, -21605, -21281, -20953, -20622, -20286, -19948, -19606,
    -19261, -18912, -18560, -18205, -17847, -17485, -17121, -16754, -16384, -16011, -15636,
    -15257, -14876, -14493, -14107, -13719, -13328, -12935, -12540, -12142, -11743, -11342,
    -10938, -10533, -10126, -9717, -9307, -8895, -8481, -8066, -7650, -7232, -6813, -6393, -5971,
    -5549, -5126, -4702, -4277, -3851, -3425, -2998, -2571, -2143, -1715, -1286, -858, -429, 0,
    429, 858, 1286, 1715, 2143, 2571, 2998, 3425, 3851, 4277, 4702, 5126, 5549, 5971, 6393, 6813,
    7232, 7650, 8066, 8481, 8895, 9307, 9717, 10126, 10533, 10938, 11342, 11743, 12142, 12540,
    12935, 13328, 13719, 14107, 14493, 14876, 15257, 15636, 16011, 16384, 16754, 17121, 17485,
    17847, 18205, 18560, 18912, 19261, 19606, 19948, 20286, 20622, 20953, 21281, 21605, 21926,
    22243, 22556, 22865, 23170, 23472, 23769, 24062, 24351, 24636, 24917, 25193, 25466, 25733,
    25997, 26255, 26510, 26760, 27005, 27246, 27482, 27713, 27939, 28161, 28378, 28590, 28797,
    28999, 29197, 29389, 29576, 29758, 29935, 30107, 30274, 30435, 30592, 30743, 30888, 31029,
    31164, 31294, 31419, 31538, 31651, 31760, 31863, 31960, 32052, 32138, 32219, 32295, 32365,
    32429, 32488, 32541, 32588, 32631, 32667, 32698, 32723, 32743, 32757, 32765, 32767, 32765,
    32757, 32743, 32723, 32698, 32667, 32631, 32588, 32541, 32488, 32429, 32365, 32295, 32219,
    32138, 32052, 31960, 31863, 31760, 31651, 31538, 31419, 31294, 31164, 31029, 30888, 30743,
    30592, 30435, 30274, 30107, 29935, 29758, 29576, 29389, 29197, 28999, 28797, 28590, 28378,
    28161, 27939, 27713, 27482, 27246, 27005, 26760, 26510, 26255, 25997, 25733, 25466, 25193,
    24917, 24636, 24351, 24062, 23769, 23472, 23170, 22865, 22556, 22243, 21926, 21605, 21281,
    20953, 20622, 20286, 19948, 19606, 19261, 18912, 18560, 18205, 17847, 17485, 17121, 16754,
    16384, 16011, 15636, 15257, 14876, 14493, 14107, 13719, 13328, 12935, 12540, 12142, 11743,
    11342, 10938, 10533, 10126, 9717, 9307, 8895, 8481, 8066, 7650, 7232, 6813, 6393, 5971, 5549,
    5126, 4702, 4277, 3851, 3425, 2998, 2571, 2143, 1715, 1286, 858, 429,
];

/// Whether a mode holds the tables of the canonical one.
#[verifier::opaque]
pub open spec fn canonical_tables(mode: OpusCustomMode) -> bool {
    &&& mode.e_bands@ == EBANDS_48000@
    &&& mode.alloc_vectors@ == BAND_ALLOCATION@
    &&& mode.log_n@ == LOG_N_48000@
    &&& mode.window@ == WINDOW_48000@
    &&& mode.mdct.trig@.len() == 4
    &&& mode.mdct.trig@[0]@ == TRIG_1920@
    &&& mode.mdct.trig@[1]@ == TRIG_960@
    &&& mode.mdct.trig@[2]@ == TRIG_480@
    &&& mode.mdct.trig@[3]@ == TRIG_240@
    &&& mode.mdct.factors@.len() == 4
    &&& mode.mdct.factors@[0]@ == seq![5usize, 3, 4, 2, 4]
    &&& mode.mdct.factors@[1]@ == seq![5usize, 3, 4, 4]
    &&& mode.mdct.factors@[2]@ == seq![5usize, 3, 2, 4]
    &&& mode.mdct.factors@[3]@ == seq![5usize, 3, 4]
    &&& mode.mdct.twiddles@.len() == 480
    &&& forall|k: int|
        0 <= k < 480 ==> #[trigger] mode.mdct.twiddles@[k] == (Twiddle {
            r: TWIDDLES_R@[k],
            i: TWIDDLES_I@[k],
        })
    &&& mode.cache.index@ == CACHE_INDEX_48000@
    &&& mode.cache.bits@ == CACHE_BITS_48000@
    &&& mode.cache.caps@ == CACHE_CAPS_48000@
}

/// Whether a mode has the sizes of the canonical one.
pub open spec fn canonical_sizes(mode: OpusCustomMode) -> bool {
    &&& mode.sample_rate == 48000
    &&& mode.overlap == 120
    &&& mode.num_ebands == 21
    &&& mode.effective_ebands == 21
    &&& mode.max_lm == 3
    &&& mode.num_short_mdcts == 8
    &&& mode.short_mdct_size == 120
    &&& mode.num_alloc_vectors == 11
}

/// The canonical mode: 48 kHz with frames of up to 960 samples.
pub fn canonical_mode() -> (mode: OpusCustomMode)
    ensures
        canonical_sizes(mode),
        mode.pre_emphasis@ == seq![27853i16, 0, 4096, 8192],
        canonical_tables(mode),
        regular(mode),
        even_bands(mode),
        angles_coded(mode),
{
    let mode = OpusCustomMode {
        sample_rate: 48000,
        overlap: 120,
        num_ebands: 21,
        effective_ebands: 21,
        pre_emphasis: [27853, 0, 4096, 8192],
        e_bands: copied(&EBANDS_48000),
        max_lm: 3,
        num_short_mdcts: 8,
        short_mdct_size: 120,
        num_alloc_vectors: 11,
        alloc_vectors: copied(&BAND_ALLOCATION),
        log_n: copied(&LOG_N_48000),
        window: copied(&WINDOW_48000),
        mdct: MdctLookup {
            trig: vec![
                copied(&TRIG_1920),
                copied(&TRIG_960),
                copied(&TRIG_480),
                copied(&TRIG_240),
            ],
            factors: vec![
                vec![5usize, 3, 4, 2, 4],
                vec![5usize, 3, 4, 4],
                vec![5usize, 3, 2, 4],
                vec![5usize, 3, 4],
            ],
            twiddles: paired(&TWIDDLES_R, &TWIDDLES_I),
        },
        cache: PulseCache {
            index: copied(&CACHE_INDEX_48000),
            bits: copied(&CACHE_BITS_48000),
            caps: copied(&CACHE_CAPS_48000),
        },
    };
    assert(mode.pre_emphasis@ =~= seq![27853i16, 0, 4096, 8192]);
    proof {
        reveal(canonical_tables);
        law_canonical_mode_is_regular(mode);
        law_canonical_mode_codes_angles(mode);
    }
    mode
}

} // verus!
