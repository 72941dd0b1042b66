/*
 * Puts the structs of miniaudio into ones of a known layout.
 *
 * Compile this file together with miniaudio.c. The declarations that belong to
 * it are in app/bindings.rs.
 */

#include <stdint.h>
#include <stdlib.h>
#include <string.h>

#include "miniaudio.h"

#define ORB_DEVICE_ID_LEN 256
#define ORB_DEVICE_NAME_LEN 256

_Static_assert(sizeof(ma_device_id) == ORB_DEVICE_ID_LEN, "device id");
_Static_assert(sizeof(((ma_device_info *)0)->name) == ORB_DEVICE_NAME_LEN, "device name");
_Static_assert(MA_SUCCESS == 0, "result code");
_Static_assert(ma_format_u8 == 1 && ma_format_s16 == 2, "sample formats");
_Static_assert(ma_format_s32 == 4 && ma_format_f32 == 5, "sample formats");
_Static_assert(ma_device_type_playback == 1, "device types");
_Static_assert(ma_device_type_capture == 2, "device types");
_Static_assert(ma_device_type_duplex == 3, "device types");

typedef struct {
    uint8_t id[ORB_DEVICE_ID_LEN];
    uint8_t name[ORB_DEVICE_NAME_LEN];
    uint32_t is_default;
} orb_device_info;

typedef struct {
    uint32_t has_device_id;
    uint8_t device_id[ORB_DEVICE_ID_LEN];
    uint32_t format;
    uint32_t channels;
} orb_direction_config;

typedef struct {
    uint32_t device_type;
    uint32_t sample_rate;
    uint32_t period_size_in_frames;
    orb_direction_config playback;
    orb_direction_config capture;
} orb_device_config;

typedef struct {
    void *user_data;
    void *playback_data;
    const void *captured_data;
    uint32_t frame_count;
    uint32_t playback_format;
    uint32_t playback_channels;
    uint32_t capture_format;
    uint32_t capture_channels;
} orb_call;

typedef void (*orb_callback)(const orb_call *call);

typedef struct {
    ma_device device;
    orb_callback callback;
    void *user_data;
} orb_device;

const char *orb_result_description(int32_t result)
{
    return ma_result_description((ma_result)result);
}

int32_t orb_context_new(ma_context **out)
{
    ma_context *context = calloc(1, sizeof(*context));
    if (context == NULL) {
        return MA_OUT_OF_MEMORY;
    }
    ma_result result = ma_context_init(NULL, 0, NULL, context);
    if (result != MA_SUCCESS) {
        free(context);
        return result;
    }
    *out = context;
    return MA_SUCCESS;
}

void orb_context_free(ma_context *context)
{
    ma_context_uninit(context);
    free(context);
}

static orb_device_info *copy_infos(const ma_device_info *infos, ma_uint32 count)
{
    /* one more, so that no list at all is told apart from an empty one */
    orb_device_info *copies = calloc((size_t)count + 1, sizeof(*copies));
    if (copies == NULL) {
        return NULL;
    }
    for (ma_uint32 i = 0; i < count; i++) {
        memcpy(copies[i].id, &infos[i].id, ORB_DEVICE_ID_LEN);
        memcpy(copies[i].name, infos[i].name, ORB_DEVICE_NAME_LEN);
        copies[i].is_default = infos[i].isDefault;
    }
    return copies;
}

int32_t orb_context_get_devices(ma_context *context,
                                orb_device_info **playback, uint32_t *playback_count,
                                orb_device_info **capture, uint32_t *capture_count)
{
    ma_device_info *playback_infos = NULL;
    ma_device_info *capture_infos = NULL;
    ma_uint32 playback_len = 0;
    ma_uint32 capture_len = 0;
    ma_result result = ma_context_get_devices(context, &playback_infos, &playback_len,
                                              &capture_infos, &capture_len);
    if (result != MA_SUCCESS) {
        return result;
    }
    orb_device_info *playback_copies = copy_infos(playback_infos, playback_len);
    orb_device_info *capture_copies = copy_infos(capture_infos, capture_len);
    if (playback_copies == NULL || capture_copies == NULL) {
        free(playback_copies);
        free(capture_copies);
        return MA_OUT_OF_MEMORY;
    }
    *playback = playback_copies;
    *playback_count = playback_len;
    *capture = capture_copies;
    *capture_count = capture_len;
    return MA_SUCCESS;
}

void orb_device_infos_free(orb_device_info *infos)
{
    free(infos);
}

static void direction_out(orb_direction_config *out, const ma_device_id *id,
                          ma_format format, ma_uint32 channels)
{
    memset(out, 0, sizeof(*out));
    if (id != NULL) {
        out->has_device_id = 1;
        memcpy(out->device_id, id, ORB_DEVICE_ID_LEN);
    }
    out->format = (uint32_t)format;
    out->channels = channels;
}

void orb_device_config_init(uint32_t device_type, orb_device_config *out)
{
    ma_device_config config = ma_device_config_init((ma_device_type)device_type);
    out->device_type = (uint32_t)config.deviceType;
    out->sample_rate = config.sampleRate;
    out->period_size_in_frames = config.periodSizeInFrames;
    direction_out(&out->playback, config.playback.pDeviceID, config.playback.format,
                  config.playback.channels);
    direction_out(&out->capture, config.capture.pDeviceID, config.capture.format,
                  config.capture.channels);
}

static void on_data(ma_device *device, void *output, const void *input, ma_uint32 frame_count)
{
    const orb_device *d = device->pUserData;
    orb_call call = {
        .user_data = d->user_data,
        .playback_data = output,
        .captured_data = input,
        .frame_count = frame_count,
        .playback_format = (uint32_t)device->playback.format,
        .playback_channels = device->playback.channels,
        .capture_format = (uint32_t)device->capture.format,
        .capture_channels = device->capture.channels,
    };
    d->callback(&call);
}

int32_t orb_device_new(ma_context *context, const orb_device_config *in, orb_callback callback,
                       void *user_data, orb_device **out)
{
    orb_device *d = calloc(1, sizeof(*d));
    if (d == NULL) {
        return MA_OUT_OF_MEMORY;
    }
    d->callback = callback;
    d->user_data = user_data;

    ma_device_id playback_id;
    ma_device_id capture_id;
    ma_device_config config = ma_device_config_init((ma_device_type)in->device_type);
    config.sampleRate = in->sample_rate;
    config.periodSizeInFrames = in->period_size_in_frames;
    config.playback.format = (ma_format)in->playback.format;
    config.playback.channels = in->playback.channels;
    config.capture.format = (ma_format)in->capture.format;
    config.capture.channels = in->capture.channels;
    if (in->playback.has_device_id) {
        memcpy(&playback_id, in->playback.device_id, ORB_DEVICE_ID_LEN);
        config.playback.pDeviceID = &playback_id;
    }
    if (in->capture.has_device_id) {
        memcpy(&capture_id, in->capture.device_id, ORB_DEVICE_ID_LEN);
        config.capture.pDeviceID = &capture_id;
    }
    config.dataCallback = on_data;
    config.pUserData = d;

    ma_result result = ma_device_init(context, &config, &d->device);
    if (result != MA_SUCCESS) {
        free(d);
        return result;
    }
    *out = d;
    return MA_SUCCESS;
}

int32_t orb_device_start(orb_device *d)
{
    return ma_device_start(&d->device);
}

int32_t orb_device_stop(orb_device *d)
{
    return ma_device_stop(&d->device);
}

void orb_device_free(orb_device *d)
{
    ma_device_uninit(&d->device);
    free(d);
}

int32_t orb_hpf_new(uint32_t format, uint32_t channels, uint32_t sample_rate,
                    double cutoff_frequency, uint32_t order, ma_hpf **out)
{
    ma_hpf *hpf = calloc(1, sizeof(*hpf));
    if (hpf == NULL) {
        return MA_OUT_OF_MEMORY;
    }
    ma_hpf_config config = ma_hpf_config_init((ma_format)format, channels, sample_rate,
                                              cutoff_frequency, order);
    ma_result result = ma_hpf_init(&config, NULL, hpf);
    if (result != MA_SUCCESS) {
        free(hpf);
        return result;
    }
    *out = hpf;
    return MA_SUCCESS;
}

int32_t orb_hpf_process(ma_hpf *hpf, void *frames_out, const void *frames_in,
                        uint64_t frame_count)
{
    return ma_hpf_process_pcm_frames(hpf, frames_out, frames_in, frame_count);
}

void orb_hpf_free(ma_hpf *hpf)
{
    ma_hpf_uninit(hpf, NULL);
    free(hpf);
}
